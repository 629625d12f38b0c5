//! The layout solver: recomputes every rectangle of one workspace from its
//! root rectangle down.
//!
//! A horizontal container divides its height evenly among its children
//! (integer division), each child spanning the full width, the last child
//! absorbing the remainder.  A vertical container divides its width the same
//! way but keeps a one-cell gap between consecutive children; again the last
//! child's right edge meets the container's right edge.  The pass is
//! iterative over an explicit work stack seeded with the root.

use vstd::prelude::*;
use vstd::arithmetic::div_mod::lemma_fundamental_div_mod;
use vstd::arithmetic::mul::lemma_mul_inequality;
use crate::chains::{chain_to_root, has_chain, lemma_chain_covered, lemma_no_self_parent};
use crate::geom::Rect;
use crate::ids::{TabId, ViewId};
use crate::node::{
    Container, Content, Layout, Node, Pane, area_of, children_of, copy_ids, is_container,
    layout_of, node_same_shape, parent_of,
};
use crate::tabs::Tabs;
use crate::tree::{Tree, children_wf, lemma_tree_wf_preserved, lemma_tree_wf_shape, tree_wf};

verus! {

/// The rectangle assigned to child `i` of a horizontal container at `c`
/// with `len` children: full width, an even share of the height, the last
/// child absorbing the remainder.
pub open spec fn h_slice(c: Rect, len: int, i: int) -> Rect {
    let h = c.height as int / len;
    Rect {
        x: c.x,
        y: (c.y + i * h) as u16,
        width: c.width,
        height: (if i == len - 1 {
            c.height - (len - 1) * h
        } else {
            h
        }) as u16,
    }
}

/// Whether a vertical subdivision, with its one-cell gaps, fits inside the
/// container's width; a container too narrow for its children cannot tile.
pub open spec fn v_fits(c: Rect, len: int) -> bool {
    (len - 1) * (c.width as int / len + 1) <= c.width
}

/// The rectangle assigned to child `i` of a vertical container at `c` with
/// `len` children: full height, an even share of the width with a one-cell
/// gap after each child, the last child ending at the right edge.
pub open spec fn v_slice(c: Rect, len: int, i: int) -> Rect {
    let w = c.width as int / len;
    let xi = c.x + i * (w + 1);
    Rect {
        x: xi as u16,
        y: c.y,
        width: (if i == len - 1 {
            c.x + c.width - xi
        } else {
            w
        }) as u16,
        height: c.height,
    }
}

/// The children of container `id` carry exactly the slices of its own
/// rectangle, along its axis.  Claimed only where the arithmetic can hold:
/// the rectangle must not run off the `u16` grid, and a vertical container
/// must be wide enough for its gaps.
pub open spec fn tiled(a: Map<ViewId, Node>, id: ViewId) -> bool {
    let c = area_of(a, id);
    let ch = children_of(a, id);
    let len = ch.len() as int;
    match layout_of(a, id) {
        Layout::Horizontal => c.valid() ==> forall|i: int|
            0 <= i < len ==> area_of(a, #[trigger] ch[i]) == h_slice(c, len, i),
        Layout::Vertical => c.valid() && v_fits(c, len) ==> forall|i: int|
            0 <= i < len ==> area_of(a, #[trigger] ch[i]) == v_slice(c, len, i),
    }
}

/// A fully solved workspace: the root carries the workspace rectangle and
/// every member container tiles its children.
pub open spec fn tree_solved(a: Map<ViewId, Node>, t: Tree) -> bool {
    &&& area_of(a, t.root) == t.area
    &&& forall|id: ViewId|
        #[trigger] t.mset().contains(id) && is_container(a, id) ==> tiled(a, id)
}

/// Being solved survives any arena change that leaves the tree's own nodes
/// untouched.
pub proof fn lemma_tree_solved_frame(a1: Map<ViewId, Node>, a2: Map<ViewId, Node>, t: Tree)
    requires
        tree_wf(a1, t),
        tree_solved(a1, t),
        forall|id: ViewId|
            #[trigger] t.mset().contains(id) ==> a2.dom().contains(id) && a2[id] == a1[id],
    ensures
        tree_solved(a2, t),
{
    assert forall|id: ViewId| #[trigger] t.mset().contains(id) && is_container(a2, id)
        implies tiled(a2, id) by {
        assert(a2[id] == a1[id]);
        assert(is_container(a1, id));
        assert(tiled(a1, id));
        assert(children_of(a2, id) == children_of(a1, id));
        assert forall|i: int| 0 <= i < children_of(a2, id).len()
            implies area_of(a2, #[trigger] children_of(a2, id)[i]) == area_of(
            a1,
            children_of(a1, id)[i],
        ) by {
            assert(t.mset().contains(children_of(a1, id)[i]));
        }
    }
}

/// The horizontal slices tile their container exactly: each child spans
/// the full width, the first starts at the top edge, each next child
/// starts where the previous one ends, and the last ends at the bottom
/// edge — no gap and no overlap.
pub proof fn lemma_h_slices_tile(c: Rect, len: int)
    requires
        c.valid(),
        len >= 1,
    ensures
        h_slice(c, len, 0).y == c.y,
        forall|i: int|
            0 <= i < len - 1 ==> #[trigger] h_slice(c, len, i + 1).y == h_slice(c, len, i).y
                + h_slice(c, len, i).height,
        h_slice(c, len, len - 1).y + h_slice(c, len, len - 1).height == c.y + c.height,
        forall|i: int|
            0 <= i < len ==> (#[trigger] h_slice(c, len, i)).x == c.x && h_slice(c, len, i).width
                == c.width,
{
    let h = c.height as int / len;
    lemma_share_bound(c.height as int, len, len);
    assert forall|i: int| 0 <= i < len implies 0 <= #[trigger] (i * h) <= c.height && i * h
        <= (len - 1) * h by {
        lemma_share_bound(c.height as int, len, i);
        lemma_mul_inequality(i, len - 1, h);
        vstd::arithmetic::mul::lemma_mul_nonnegative(i, h);
    }
    assert forall|i: int|
        0 <= i < len - 1 implies #[trigger] h_slice(c, len, i + 1).y == h_slice(c, len, i).y
        + h_slice(c, len, i).height by {
        vstd::arithmetic::mul::lemma_mul_is_distributive_add_other_way(h, i, 1);
        lemma_share_bound(c.height as int, len, i + 1);
    }
    lemma_share_bound(c.height as int, len, len - 1);
}

/// The vertical slices tile their container exactly with the one-cell gap:
/// each child spans the full height, the first starts at the left edge,
/// each next child starts one cell after the previous one ends, and the
/// last ends at the right edge.
pub proof fn lemma_v_slices_tile(c: Rect, len: int)
    requires
        c.valid(),
        len >= 1,
        v_fits(c, len),
    ensures
        v_slice(c, len, 0).x == c.x,
        forall|i: int|
            0 <= i < len - 1 ==> #[trigger] v_slice(c, len, i + 1).x == v_slice(c, len, i).x
                + v_slice(c, len, i).width + 1,
        v_slice(c, len, len - 1).x + v_slice(c, len, len - 1).width == c.x + c.width,
        forall|i: int|
            0 <= i < len ==> (#[trigger] v_slice(c, len, i)).y == c.y && v_slice(c, len, i).height
                == c.height,
{
    let w = c.width as int / len;
    lemma_share_bound(c.width as int, len, len);
    assert forall|i: int| 0 <= i < len implies 0 <= #[trigger] (i * (w + 1)) <= c.width + i by {
        lemma_share_bound(c.width as int, len, i);
        vstd::arithmetic::mul::lemma_mul_is_distributive_add(i, w, 1);
        vstd::arithmetic::mul::lemma_mul_nonnegative(i, w + 1);
        lemma_mul_inequality(i, len, w);
    }
    assert forall|i: int| 0 <= i < len implies #[trigger] (i * (w + 1)) <= (len - 1) * (w
        + 1) by {
        lemma_mul_inequality(i, len - 1, w + 1);
    }
    assert forall|i: int|
        0 <= i < len - 1 implies #[trigger] v_slice(c, len, i + 1).x == v_slice(c, len, i).x
        + v_slice(c, len, i).width + 1 by {
        vstd::arithmetic::mul::lemma_mul_is_distributive_add_other_way(w + 1, i, 1);
        lemma_mul_inequality(i + 1, len - 1, w + 1);
    }
    lemma_mul_inequality(len - 1, len - 1, w + 1);
}

/// An even share taken `i` times stays within the total.
proof fn lemma_share_bound(total: int, len: int, i: int)
    requires
        len >= 1,
        total >= 0,
        0 <= i <= len,
    ensures
        i * (total / len) <= total,
        i * (total / len) >= 0,
{
    lemma_fundamental_div_mod(total, len);
    lemma_mul_inequality(i, len, total / len);
    vstd::arithmetic::mul::lemma_mul_is_commutative(i, total / len);
    vstd::arithmetic::mul::lemma_mul_is_commutative(len, total / len);
    vstd::arithmetic::mul::lemma_mul_nonnegative(i, total / len);
}

/// Clamps a 32-bit coordinate onto the `u16` grid.
fn clamp16(v: u32) -> (r: u16)
    ensures
        v <= 0xFFFF ==> r == v,
        v > 0xFFFF ==> r == 0xFFFF,
{
    if v > 0xFFFF {
        0xFFFF
    } else {
        v as u16
    }
}

/// The solver pass leaves the workspace store alone, touches no node
/// outside the tree's member set, and keeps the shape of every member.
pub open spec fn pass_frame(pre: Tabs, now: Tabs, mset: Set<ViewId>) -> bool {
    &&& now.tmap() == pre.tmap()
    &&& now.active() == pre.active()
    &&& now.arena().dom() == pre.arena().dom()
    &&& forall|id: ViewId|
        pre.arena().dom().contains(id) && !mset.contains(id) ==> now.arena()[id]
            == #[trigger] pre.arena()[id]
    &&& forall|id: ViewId|
        #[trigger] mset.contains(id) ==> node_same_shape(now.arena()[id], pre.arena()[id])
}

/// The per-node bookkeeping of the pass: which nodes are finished, which
/// rectangles are scheduled, and how the work stack relates to both.
spec fn pass_inv(
    pre: Tabs,
    now: Tabs,
    t: Tree,
    done: Set<ViewId>,
    sched: Map<ViewId, Rect>,
    stack: Seq<(ViewId, Rect)>,
) -> bool {
    let a = now.arena();
    let sids = stack.map_values(|p: (ViewId, Rect)| p.0);
    &&& pass_frame(pre, now, t.mset())
    &&& done.finite()
    &&& done.subset_of(t.mset())
    &&& sids.no_duplicates()
    &&& forall|j: int|
        0 <= j < stack.len() ==> {
            &&& t.mset().contains(#[trigger] stack[j].0)
            &&& !done.contains(stack[j].0)
            &&& sched.dom().contains(stack[j].0)
            &&& sched[stack[j].0] == stack[j].1
        }
    &&& done.contains(t.root) || sids.contains(t.root)
    &&& sched.dom().contains(t.root) && sched[t.root] == t.area
    &&& forall|x: ViewId|
        #[trigger] sched.dom().contains(x) ==> done.contains(x) || sids.contains(x)
    &&& forall|x: ViewId|
        (#[trigger] done.contains(x) || sids.contains(x)) && x != t.root ==> done.contains(
            parent_of(pre.arena(), x),
        )
    &&& forall|d: ViewId| #[trigger] done.contains(d) ==> area_of(a, d) == sched[d]
    &&& forall|d: ViewId|
        #[trigger] done.contains(d) && is_container(a, d) ==> slices_scheduled(
            now,
            d,
            sched,
            done,
            sids,
            children_of(a, d).len() as int,
        )
}

/// Children `0 .. upto` of finished container `d` have been scheduled: each
/// carries its slice of `d`'s rectangle (where the arithmetic holds) and
/// sits in the stack or is already finished.
spec fn slices_scheduled(
    now: Tabs,
    d: ViewId,
    sched: Map<ViewId, Rect>,
    done: Set<ViewId>,
    sids: Seq<ViewId>,
    upto: int,
) -> bool {
    let a = now.arena();
    let cr = sched[d];
    let ch = children_of(a, d);
    let len = ch.len() as int;
    forall|i: int|
        0 <= i < upto ==> {
            &&& sched.dom().contains(#[trigger] ch[i])
            &&& (done.contains(ch[i]) || sids.contains(ch[i]))
            &&& (match layout_of(a, d) {
                Layout::Horizontal => cr.valid() ==> sched[ch[i]] == h_slice(cr, len, i),
                Layout::Vertical => cr.valid() && v_fits(cr, len) ==> sched[ch[i]] == v_slice(
                    cr,
                    len,
                    i,
                ),
            })
        }
}

/// What the pop of entry `(key, r)` from the stack establishes.
proof fn lemma_pop_facts(
    pre: Tabs,
    s0: Tabs,
    t: Tree,
    done0: Set<ViewId>,
    sched0: Map<ViewId, Rect>,
    stack0: Seq<(ViewId, Rect)>,
    key: ViewId,
    r: Rect,
)
    requires
        pass_inv(pre, s0, t, done0, sched0, stack0.push((key, r))),
    ensures
        t.mset().contains(key),
        !done0.contains(key),
        sched0.dom().contains(key),
        sched0[key] == r,
        !stack0.map_values(|p: (ViewId, Rect)| p.0).contains(key),
        node_same_shape(s0.arena()[key], pre.arena()[key]),
{
    let sin = stack0.push((key, r));
    let sids_in = sin.map_values(|p: (ViewId, Rect)| p.0);
    let sids0 = stack0.map_values(|p: (ViewId, Rect)| p.0);
    assert(sids_in =~= sids0.push(key));
    assert(sin[sin.len() - 1] == (key, r));
    assert(sin[sin.len() - 1].0 == key);
    assert(t.mset().contains(sin[sin.len() - 1].0));
    if sids0.contains(key) {
        let j = choose|j: int| 0 <= j < sids0.len() && sids0[j] == key;
        assert(sids_in[j] == key);
        assert(sids_in[sids_in.len() - 1] == key);
    }
}

/// Restores the pass bookkeeping after a leaf pane got its rectangle.
proof fn lemma_restore_leaf(
    pre: Tabs,
    s0: Tabs,
    s1: Tabs,
    t: Tree,
    done0: Set<ViewId>,
    sched: Map<ViewId, Rect>,
    stack0: Seq<(ViewId, Rect)>,
    key: ViewId,
    r: Rect,
)
    requires
        pass_inv(pre, s0, t, done0, sched, stack0.push((key, r))),
        s1.tmap() == s0.tmap(),
        s1.active() == s0.active(),
        s1.arena() == s0.arena().insert(key, s1.arena()[key]),
        s1.arena().dom() == s0.arena().dom(),
        node_same_shape(s1.arena()[key], s0.arena()[key]),
        !(s1.arena()[key].content is Container),
        area_of(s1.arena(), key) == r,
    ensures
        pass_inv(pre, s1, t, done0.insert(key), sched, stack0),
{
    let a0 = s0.arena();
    let a1 = s1.arena();
    let done1 = done0.insert(key);
    let sin = stack0.push((key, r));
    let sids_in = sin.map_values(|p: (ViewId, Rect)| p.0);
    let sids0 = stack0.map_values(|p: (ViewId, Rect)| p.0);
    lemma_pop_facts(pre, s0, t, done0, sched, stack0, key, r);
    assert(sids_in =~= sids0.push(key));
    assert(sin[sin.len() - 1] == (key, r));
    // frame
    assert forall|id: ViewId|
        pre.arena().dom().contains(id) && !t.mset().contains(id) implies a1[id]
        == #[trigger] pre.arena()[id] by {
        assert(id != key);
        assert(a1[id] == a0[id]);
    }
    assert forall|id: ViewId| #[trigger] t.mset().contains(id) implies node_same_shape(
        a1[id],
        pre.arena()[id],
    ) by {
        if id == key {
            assert(node_same_shape(a0[key], pre.arena()[key]));
        } else {
            assert(a1[id] == a0[id]);
            assert(node_same_shape(a0[id], pre.arena()[id]));
        }
    }
    // the remaining stack keeps its facts
    assert forall|j: int| 0 <= j < stack0.len() implies {
        &&& t.mset().contains(#[trigger] stack0[j].0)
        &&& !done1.contains(stack0[j].0)
        &&& sched.dom().contains(stack0[j].0)
        &&& sched[stack0[j].0] == stack0[j].1
    } by {
        assert(sin[j] == stack0[j]);
        assert(sids0[j] == stack0[j].0);
        assert(sids0.contains(stack0[j].0));
    }
    assert(sids0.no_duplicates()) by {
        assert forall|i: int, j: int| 0 <= i < sids0.len() && 0 <= j < sids0.len() && i != j
            implies sids0[i] != sids0[j] by {
            assert(sids_in[i] == sids0[i]);
            assert(sids_in[j] == sids0[j]);
        }
    }
    assert(done1.contains(t.root) || sids0.contains(t.root)) by {
        if !done0.contains(t.root) && t.root != key {
            let j = choose|j: int| 0 <= j < sids_in.len() && sids_in[j] == t.root;
            assert(j < sids_in.len() - 1);
            assert(sids0[j] == t.root);
        }
    }
    assert forall|x: ViewId| #[trigger] sched.dom().contains(x) implies done1.contains(x)
        || sids0.contains(x) by {
        if !done0.contains(x) && x != key {
            assert(sids_in.contains(x));
            let j = choose|j: int| 0 <= j < sids_in.len() && sids_in[j] == x;
            assert(j < sids_in.len() - 1);
            assert(sids0[j] == x);
        }
    }
    assert forall|x: ViewId|
        (#[trigger] done1.contains(x) || sids0.contains(x)) && x != t.root implies done1.contains(
        parent_of(pre.arena(), x),
    ) by {
        if x == key {
            assert(sids_in.contains(x)) by {
                assert(sids_in[sids_in.len() - 1] == key);
            }
        } else if !done0.contains(x) {
            let j = choose|j: int| 0 <= j < sids0.len() && sids0[j] == x;
            assert(sids_in[j] == x);
            assert(sids_in.contains(x));
        }
    }
    assert forall|d: ViewId| #[trigger] done1.contains(d) implies area_of(a1, d) == sched[d] by {
        if d != key {
            assert(done0.contains(d));
            assert(a1[d] == a0[d]);
        }
    }
    assert forall|d: ViewId| #[trigger] done1.contains(d) && is_container(a1, d)
        implies slices_scheduled(s1, d, sched, done1, sids0, children_of(a1, d).len() as int) by {
        assert(d != key);
        assert(done0.contains(d));
        assert(a1[d] == a0[d]);
        assert(is_container(a0, d));
        assert(slices_scheduled(s0, d, sched, done0, sids_in, children_of(a0, d).len() as int));
        assert(children_of(a1, d) == children_of(a0, d));
        assert(layout_of(a1, d) == layout_of(a0, d));
        let ch = children_of(a1, d);
        let len = ch.len() as int;
        assert forall|i: int| 0 <= i < len implies {
            &&& sched.dom().contains(#[trigger] ch[i])
            &&& (done1.contains(ch[i]) || sids0.contains(ch[i]))
            &&& (match layout_of(a1, d) {
                Layout::Horizontal => sched[d].valid() ==> sched[ch[i]] == h_slice(
                    sched[d],
                    len,
                    i,
                ),
                Layout::Vertical => sched[d].valid() && v_fits(sched[d], len) ==> sched[ch[i]]
                    == v_slice(sched[d], len, i),
            })
        } by {
            assert(children_of(a0, d)[i] == ch[i]);
            if !done0.contains(ch[i]) && ch[i] != key {
                let j = choose|j: int| 0 <= j < sids_in.len() && sids_in[j] == ch[i];
                assert(j < sids_in.len() - 1);
                assert(sids0[j] == ch[i]);
            }
        }
    }
    assert(pass_inv(pre, s1, t, done1, sched, stack0));
}

/// Restores the pass bookkeeping after a container got its rectangle and
/// its children were scheduled, each with its slice.
proof fn lemma_restore_container(
    pre: Tabs,
    s0: Tabs,
    s1: Tabs,
    t: Tree,
    done0: Set<ViewId>,
    sched0: Map<ViewId, Rect>,
    sched1: Map<ViewId, Rect>,
    stack0: Seq<(ViewId, Rect)>,
    stack1: Seq<(ViewId, Rect)>,
    key: ViewId,
    r: Rect,
    chs: Seq<ViewId>,
)
    requires
        pass_inv(pre, s0, t, done0, sched0, stack0.push((key, r))),
        tree_wf(pre.arena(), t),
        s1.tmap() == s0.tmap(),
        s1.active() == s0.active(),
        s1.arena() == s0.arena().insert(key, s1.arena()[key]),
        s1.arena().dom() == s0.arena().dom(),
        node_same_shape(s1.arena()[key], s0.arena()[key]),
        is_container(s1.arena(), key),
        area_of(s1.arena(), key) == r,
        children_of(s1.arena(), key) == chs,
        stack1.len() == stack0.len() + chs.len(),
        stack1.subrange(0, stack0.len() as int) == stack0,
        forall|j: int|
            0 <= j < chs.len() ==> #[trigger] stack1[stack0.len() + j] == (
                chs[j],
                sched1[chs[j]],
            ),
        forall|x: ViewId|
            #[trigger] sched0.dom().contains(x) ==> sched1.dom().contains(x) && sched1[x]
                == sched0[x],
        forall|x: ViewId|
            #[trigger] sched1.dom().contains(x) ==> sched0.dom().contains(x) || chs.contains(x),
        forall|j: int| 0 <= j < chs.len() ==> sched1.dom().contains(#[trigger] chs[j]),
        forall|j: int|
            0 <= j < chs.len() ==> (match layout_of(s1.arena(), key) {
                Layout::Horizontal => r.valid() ==> sched1[#[trigger] chs[j]] == h_slice(
                    r,
                    chs.len() as int,
                    j,
                ),
                Layout::Vertical => r.valid() && v_fits(r, chs.len() as int) ==> sched1[
                    #[trigger] chs[j]
                ] == v_slice(r, chs.len() as int, j),
            }),
    ensures
        pass_inv(pre, s1, t, done0.insert(key), sched1, stack1),
{
    let a0 = s0.arena();
    let a1 = s1.arena();
    let ap = pre.arena();
    let done1 = done0.insert(key);
    let sin = stack0.push((key, r));
    let sids_in = sin.map_values(|p: (ViewId, Rect)| p.0);
    let sids0 = stack0.map_values(|p: (ViewId, Rect)| p.0);
    let sids1 = stack1.map_values(|p: (ViewId, Rect)| p.0);
    let base = stack0.len() as int;
    lemma_pop_facts(pre, s0, t, done0, sched0, stack0, key, r);
    assert(sids_in =~= sids0.push(key));
    assert(sin[sin.len() - 1] == (key, r));
    assert(sched1[key] == r);
    // the container's shape agrees across all three arenas
    assert(is_container(ap, key));
    assert(children_of(ap, key) == chs);
    assert(children_wf(ap, t, key));
    assert(chs.no_duplicates());
    // facts about each child
    assert forall|j: int| 0 <= j < chs.len() implies {
        &&& t.mset().contains(#[trigger] chs[j])
        &&& chs[j] != t.root
        &&& chs[j] != key
        &&& parent_of(ap, chs[j]) == key
        &&& !done0.contains(chs[j])
        &&& !sids0.contains(chs[j])
        &&& !sched0.dom().contains(chs[j])
    } by {
        assert(t.mset().contains(chs[j]));
        assert(parent_of(ap, chs[j]) == key);
        if chs[j] == key {
            assert(has_chain(ap, t.root, key));
            if key != t.root {
                lemma_no_self_parent(ap, t.root, key);
            }
        }
        if done0.contains(chs[j]) || sids0.contains(chs[j]) {
            if sids0.contains(chs[j]) {
                let jj = choose|jj: int| 0 <= jj < sids0.len() && sids0[jj] == chs[j];
                assert(sids_in[jj] == chs[j]);
                assert(sids_in.contains(chs[j]));
            }
            assert(done0.contains(key));
        }
        if sched0.dom().contains(chs[j]) {
            assert(done0.contains(chs[j]) || sids_in.contains(chs[j]));
            if sids_in.contains(chs[j]) {
                let jj = choose|jj: int| 0 <= jj < sids_in.len() && sids_in[jj] == chs[j];
                if jj < sids_in.len() - 1 {
                    assert(sids0[jj] == chs[j]);
                } else {
                    assert(chs[j] == key);
                }
                assert(done0.contains(key));
            } else {
                assert(done0.contains(key));
            }
        }
    }
    // the composed id sequence
    assert(sids1 =~= sids0 + chs) by {
        assert forall|j: int| 0 <= j < sids1.len() implies sids1[j] == (sids0 + chs)[j] by {
            if j < base {
                assert(stack1[j] == stack1.subrange(0, base)[j]);
                assert(stack1[j] == stack0[j]);
            } else {
                let k = j - base;
                assert(stack1[base + k] == (chs[k], sched1[chs[k]]));
            }
        }
    }
    // frame
    assert forall|id: ViewId|
        pre.arena().dom().contains(id) && !t.mset().contains(id) implies a1[id]
        == #[trigger] pre.arena()[id] by {
        assert(id != key);
        assert(a1[id] == a0[id]);
    }
    assert forall|id: ViewId| #[trigger] t.mset().contains(id) implies node_same_shape(
        a1[id],
        pre.arena()[id],
    ) by {
        if id == key {
            assert(node_same_shape(a0[key], pre.arena()[key]));
        } else {
            assert(a1[id] == a0[id]);
            assert(node_same_shape(a0[id], pre.arena()[id]));
        }
    }
    // no duplicates in the new stack
    assert(sids0.no_duplicates()) by {
        assert forall|i: int, j: int| 0 <= i < sids0.len() && 0 <= j < sids0.len() && i != j
            implies sids0[i] != sids0[j] by {
            assert(sids_in[i] == sids0[i]);
            assert(sids_in[j] == sids0[j]);
        }
    }
    assert(sids1.no_duplicates()) by {
        assert forall|i: int, j: int| 0 <= i < sids1.len() && 0 <= j < sids1.len() && i != j
            implies sids1[i] != sids1[j] by {
            if i < base && j >= base {
                assert(sids1[i] == sids0[i]);
                assert(sids1[j] == chs[j - base]);
                if sids0[i] == chs[j - base] {
                    assert(sids0.contains(chs[j - base]));
                }
            } else if i >= base && j < base {
                assert(sids1[j] == sids0[j]);
                assert(sids1[i] == chs[i - base]);
                if sids0[j] == chs[i - base] {
                    assert(sids0.contains(chs[i - base]));
                }
            }
        }
    }
    // stack entry facts
    assert forall|j: int| 0 <= j < stack1.len() implies {
        &&& t.mset().contains(#[trigger] stack1[j].0)
        &&& !done1.contains(stack1[j].0)
        &&& sched1.dom().contains(stack1[j].0)
        &&& sched1[stack1[j].0] == stack1[j].1
    } by {
        if j < base {
            assert(stack1[j] == stack1.subrange(0, base)[j]);
            assert(stack1[j] == stack0[j]);
            assert(sin[j] == stack0[j]);
            assert(t.mset().contains(sin[j].0));
            assert(!done0.contains(sin[j].0));
            assert(sched0.dom().contains(sin[j].0));
            assert(sched0[sin[j].0] == sin[j].1);
            assert(sids0[j] == stack0[j].0);
            assert(sids0.contains(stack0[j].0));
        } else {
            let k = j - base;
            assert(stack1[base + k] == (chs[k], sched1[chs[k]]));
        }
    }
    // the root is still accounted for
    assert(done1.contains(t.root) || sids1.contains(t.root)) by {
        if !done0.contains(t.root) && t.root != key {
            let j = choose|j: int| 0 <= j < sids_in.len() && sids_in[j] == t.root;
            assert(j < sids_in.len() - 1);
            assert(sids0[j] == t.root);
            assert(sids1[j] == (sids0 + chs)[j]);
        }
    }
    assert(sched1.dom().contains(t.root) && sched1[t.root] == t.area);
    // scheduled ids are finished or pending
    assert forall|x: ViewId| #[trigger] sched1.dom().contains(x) implies done1.contains(x)
        || sids1.contains(x) by {
        if sched0.dom().contains(x) {
            if !done0.contains(x) && x != key {
                assert(sids_in.contains(x));
                let j = choose|j: int| 0 <= j < sids_in.len() && sids_in[j] == x;
                assert(j < sids_in.len() - 1);
                assert(sids0[j] == x);
                assert(sids1[j] == (sids0 + chs)[j]);
            }
        } else {
            assert(chs.contains(x));
            let k = choose|k: int| 0 <= k < chs.len() && chs[k] == x;
            assert(sids1[base + k] == (sids0 + chs)[base + k]);
        }
    }
    // parent closure
    assert forall|x: ViewId|
        (#[trigger] done1.contains(x) || sids1.contains(x)) && x != t.root implies done1.contains(
        parent_of(pre.arena(), x),
    ) by {
        if done0.contains(x) {
        } else if x == key {
            assert(sids_in.contains(x)) by {
                assert(sids_in[sids_in.len() - 1] == key);
            }
        } else if sids1.contains(x) {
            let j = choose|j: int| 0 <= j < sids1.len() && sids1[j] == x;
            assert(sids1[j] == (sids0 + chs)[j]);
            if j < base {
                assert(sids0[j] == x);
                assert(sids_in[j] == x);
                assert(sids_in.contains(x));
            } else {
                assert(x == chs[j - base]);
                assert(parent_of(pre.arena(), x) == key);
            }
        }
    }
    // finished nodes carry their scheduled rectangles
    assert forall|d: ViewId| #[trigger] done1.contains(d) implies area_of(a1, d) == sched1[d] by {
        if d != key {
            assert(done0.contains(d));
            assert(a1[d] == a0[d]);
            assert(area_of(a0, d) == sched0[d]);
            assert(sched0.dom().contains(d));
        }
    }
    // finished containers have their children scheduled with slices
    assert forall|d: ViewId| #[trigger] done1.contains(d) && is_container(a1, d)
        implies slices_scheduled(s1, d, sched1, done1, sids1, children_of(a1, d).len() as int) by {
        if d == key {
            let len = chs.len() as int;
            assert forall|i: int| 0 <= i < len implies {
                &&& sched1.dom().contains(#[trigger] chs[i])
                &&& (done1.contains(chs[i]) || sids1.contains(chs[i]))
                &&& (match layout_of(a1, key) {
                    Layout::Horizontal => sched1[key].valid() ==> sched1[chs[i]] == h_slice(
                        sched1[key],
                        len,
                        i,
                    ),
                    Layout::Vertical => sched1[key].valid() && v_fits(sched1[key], len)
                        ==> sched1[chs[i]] == v_slice(sched1[key], len, i),
                })
            } by {
                assert(sids1[base + i] == (sids0 + chs)[base + i]);
                assert(sids1[base + i] == chs[i]);
                assert(sids1.contains(chs[i]));
            }
            assert(slices_scheduled(s1, key, sched1, done1, sids1, len));
        } else {
            assert(done0.contains(d));
            assert(a1[d] == a0[d]);
            assert(is_container(a0, d));
            assert(slices_scheduled(s0, d, sched0, done0, sids_in, children_of(a0, d).len() as int));
            assert(children_of(a1, d) == children_of(a0, d));
            assert(layout_of(a1, d) == layout_of(a0, d));
            assert(sched0.dom().contains(d));
            assert(sched1[d] == sched0[d]);
            let ch = children_of(a1, d);
            let len = ch.len() as int;
            assert forall|i: int| 0 <= i < len implies {
                &&& sched1.dom().contains(#[trigger] ch[i])
                &&& (done1.contains(ch[i]) || sids1.contains(ch[i]))
                &&& (match layout_of(a1, d) {
                    Layout::Horizontal => sched1[d].valid() ==> sched1[ch[i]] == h_slice(
                        sched1[d],
                        len,
                        i,
                    ),
                    Layout::Vertical => sched1[d].valid() && v_fits(sched1[d], len) ==> sched1[
                        ch[i]
                    ] == v_slice(sched1[d], len, i),
                })
            } by {
                assert(children_of(a0, d)[i] == ch[i]);
                assert(sched0.dom().contains(ch[i]));
                assert(sched1[ch[i]] == sched0[ch[i]]);
                assert(done0.contains(ch[i]) || sids_in.contains(ch[i]));
                if !done0.contains(ch[i]) && ch[i] != key {
                    let j = choose|j: int| 0 <= j < sids_in.len() && sids_in[j] == ch[i];
                    assert(j < sids_in.len() - 1);
                    assert(sids0[j] == ch[i]);
                    assert(sids1[j] == (sids0 + chs)[j]);
                    assert(sids1.contains(ch[i]));
                }
            }
        }
    }
    assert(pass_inv(pre, s1, t, done1, sched1, stack1));
}

/// When the work stack has drained, every member is finished, so the whole
/// tree is solved and the workspace set is well-formed again.
proof fn lemma_pass_complete(pre: Tabs, now: Tabs, t: Tree, tab: TabId, done: Set<ViewId>, sched: Map<ViewId, Rect>)
    requires
        pre.wf(),
        pre.tmap().dom().contains(tab),
        t == pre.tmap()[tab],
        pass_inv(pre, now, t, done, sched, Seq::<(ViewId, Rect)>::empty()),
    ensures
        now.wf(),
        forall|tid: TabId|
            #[trigger] now.tmap().dom().contains(tid) ==> tree_wf(now.arena(), now.tmap()[tid]),
        tree_solved(now.arena(), t),
{
    let a = now.arena();
    let ap = pre.arena();
    let mset = t.mset();
    let sids = Seq::<(ViewId, Rect)>::empty().map_values(|p: (ViewId, Rect)| p.0);
    assert(sids.len() == 0);
    assert(done.contains(t.root));
    assert forall|m: ViewId| #[trigger] mset.contains(m) implies done.contains(m) by {
        let n = choose|n: nat| chain_to_root(ap, t.root, m, n);
        assert(chain_to_root(ap, t.root, m, n));
        assert forall|d: ViewId, j: int|
            #[trigger] done.contains(d) && is_container(ap, d) && 0 <= j < children_of(
                ap,
                d,
            ).len() implies done.contains(#[trigger] children_of(ap, d)[j]) by {
            assert(mset.contains(d));
            assert(node_same_shape(a[d], ap[d]));
            assert(is_container(a, d));
            assert(children_of(a, d) == children_of(ap, d));
            assert(slices_scheduled(now, d, sched, done, sids, children_of(a, d).len() as int));
            assert(done.contains(children_of(a, d)[j]) || sids.contains(children_of(a, d)[j]));
        }
        lemma_chain_covered(ap, t.root, mset, done, m, n);
    }
    lemma_tree_wf_shape(ap, a, t);
    assert forall|tid: TabId| #[trigger] now.tmap().dom().contains(tid) implies tree_wf(
        a,
        now.tmap()[tid],
    ) by {
        if tid == tab {
            assert(now.tmap()[tab] == t);
        } else {
            let ot = pre.tmap()[tid];
            assert forall|id: ViewId| #[trigger] ot.mset().contains(id) implies a.dom().contains(
                id,
            ) && a[id] == ap[id] by {
                assert(!mset.contains(id));
                assert(ap.dom().contains(id));
            }
            lemma_tree_wf_preserved(ap, a, ot);
        }
    }
    assert(tree_solved(a, t)) by {
        assert(done.contains(t.root));
        assert(area_of(a, t.root) == sched[t.root]);
        assert forall|id: ViewId| #[trigger] t.mset().contains(id) && is_container(a, id)
            implies tiled(a, id) by {
            assert(done.contains(id));
            assert(slices_scheduled(now, id, sched, done, sids, children_of(a, id).len() as int));
            let cr = sched[id];
            assert(area_of(a, id) == cr);
            let ch = children_of(a, id);
            let len = ch.len() as int;
            assert forall|i: int| 0 <= i < len implies area_of(a, #[trigger] ch[i]) == sched[
                ch[i]
            ] by {
                assert(done.contains(ch[i]) || sids.contains(ch[i]));
                assert(done.contains(ch[i]));
            }
        }
    }
}


impl Tabs {
    /// Recomputes every rectangle of workspace `tab`, top-down from its
    /// stored rectangle.  A workspace without panes skips geometry and only
    /// forces its focus back to its root.
    #[verifier::rlimit(60)]
    pub fn recalculate_tab(&mut self, tab: TabId)
        requires
            old(self).wf(),
            old(self).tmap().dom().contains(tab),
        ensures
            final(self).wf(),
            final(self).tmap().dom() == old(self).tmap().dom(),
            final(self).active() == old(self).active(),
            final(self).arena().dom() == old(self).arena().dom(),
            forall|tid: TabId|
                #[trigger] old(self).tmap().dom().contains(tid) && tid != tab
                    ==> final(self).tmap()[tid] == old(self).tmap()[tid],
            forall|id: ViewId|
                old(self).arena().dom().contains(id) && !old(self).mset_of(tab).contains(id)
                    ==> final(self).arena()[id] == #[trigger] old(self).arena()[id],
            final(self).tmap()[tab].id == old(self).tmap()[tab].id,
            final(self).tmap()[tab].root == old(self).tmap()[tab].root,
            final(self).tmap()[tab].area == old(self).tmap()[tab].area,
            final(self).tmap()[tab].focus == old(self).tmap()[tab].focus,
            final(self).tmap()[tab].mset() == old(self).tmap()[tab].mset(),
            forall|id: ViewId|
                #[trigger] old(self).mset_of(tab).contains(id) ==> node_same_shape(
                    final(self).arena()[id],
                    old(self).arena()[id],
                ),
            children_of(old(self).arena(), old(self).tmap()[tab].root).len() == 0
                ==> final(self).arena() == old(self).arena(),
            children_of(old(self).arena(), old(self).tmap()[tab].root).len() != 0
                ==> tree_solved(final(self).arena(), final(self).tmap()[tab]),
    {
        let ghost pre = *old(self);
        let ghost t = old(self).tmap()[tab];
        let ghost mset = t.mset();
        let empty = self.tab_is_empty(tab).unwrap();
        if empty {
            let t_ref = self.trees.get(tab).unwrap();
            let mut t2 = t_ref.clone();
            t2.focus = t2.root;
            self.trees.set(tab, t2);
            proof {
                assert(self.tmap().dom() =~= pre.tmap().dom());
                assert(t.focus == t.root);
                assert(self.tmap()[tab].mset() == t.mset());
                assert(tree_wf(self.arena(), self.tmap()[tab]));
                assert forall|id: ViewId|
                    #[trigger] mset.contains(id) implies node_same_shape(
                    self.arena()[id],
                    pre.arena()[id],
                ) by {
                }
            }
            return ;
        }
        let tree_ref = self.trees.get(tab).unwrap();
        let root = tree_ref.root;
        let area = tree_ref.area;
        let mut stack: Vec<(ViewId, Rect)> = Vec::new();
        stack.push((root, area));
        let ghost mut done: Set<ViewId> = Set::empty();
        let ghost mut sched: Map<ViewId, Rect> = Map::<ViewId, Rect>::empty().insert(root, area);

        proof {
            assert(root == t.root && area == t.area);
            assert(tree_wf(pre.arena(), t));
            assert(mset.finite()) by {
                assert forall|x: ViewId| mset.contains(x) implies pre.arena().dom().contains(
                    x,
                ) by {
                    assert(t.mset().contains(x));
                }
                vstd::set_lib::lemma_set_subset_finite(pre.arena().dom(), mset);
            }
            let sids = stack@.map_values(|p: (ViewId, Rect)| p.0);
            assert(sids =~= seq![root]);
            assert(pass_inv(pre, *self, t, done, sched, stack@)) by {
                assert(stack@[0].0 == root);
                assert(stack@[0].1 == area);
                assert(sids[0] == root);
                assert(sids.contains(t.root));
                assert(sched.dom() =~= Set::<ViewId>::empty().insert(root));
                assert(t.mset().contains(t.root));
                assert forall|id: ViewId| #[trigger] mset.contains(id) implies node_same_shape(
                    pre.arena()[id],
                    pre.arena()[id],
                ) by {
                }
                assert(pass_frame(pre, *self, t.mset()));
            }
        }

        while stack.len() > 0
            invariant
                pre.wf(),
                pre.tmap().dom().contains(tab),
                t == pre.tmap()[tab],
                mset == t.mset(),
                mset.finite(),
                tree_wf(pre.arena(), t),
                children_of(pre.arena(), t.root).len() != 0,
                pass_inv(pre, *self, t, done, sched, stack@),
            decreases mset.len() - done.len(),
        {
            let ghost self0 = *self;
            let ghost done0 = done;
            let ghost sched0 = sched;
            let ghost stack_in = stack@;
            let popped = stack.pop().unwrap();
            let key = popped.0;
            let r = popped.1;
            let ghost stack0 = stack@;
            proof {
                assert(stack_in =~= stack0.push((key, r)));
                lemma_pop_facts(pre, self0, t, done0, sched0, stack0, key, r);
                vstd::set_lib::lemma_len_subset(done0, mset);
                assert(mset.subset_of(pre.arena().dom())) by {
                    assert forall|x: ViewId| mset.contains(x) implies pre.arena().dom().contains(
                        x,
                    ) by {
                        assert(t.mset().contains(x));
                    }
                }
                vstd::set_lib::lemma_len_subset(mset, pre.arena().dom());
            }
            proof {
                assert(self.arena().dom().contains(key)) by {
                    assert(t.mset().contains(key));
                    assert(pre.arena().dom().contains(key));
                }
            }
            let node_ref = self.nodes.get(key).unwrap();
            let parent = node_ref.parent;
            let content = node_ref.content.clone();
            match content {
                Content::Pane(v) => {
                    self.nodes.set(
                        key,
                        Node { parent, content: Content::Pane(Pane { id: v.id, doc: v.doc, area: r }) },
                    );
                    proof {
                        assert(self.arena().dom() =~= self0.arena().dom());
                        assert(self.arena() == self0.arena().insert(key, self.arena()[key]));
                        assert(node_same_shape(self.arena()[key], self0.arena()[key]));
                        lemma_restore_leaf(pre, self0, *self, t, done0, sched0, stack0, key, r);
                        done = done0.insert(key);
                        vstd::set_lib::lemma_len_subset(done, mset);
                    }
                },
                Content::Container(c) => {
                    let layout = c.layout;
                    let ch = c.children;
                    let ch2 = copy_ids(&ch);
                    self.nodes.set(
                        key,
                        Node {
                            parent,
                            content: Content::Container(Container { layout, children: ch2, area: r }),
                        },
                    );
                    let len = ch.len();
                    let ghost chs = ch@;
                    let ghost sbase = stack@;
                    proof {
                        assert(sbase == stack0);
                        assert(self.arena().dom() =~= self0.arena().dom());
                        assert(self.arena() == self0.arena().insert(key, self.arena()[key]));
                        assert(node_same_shape(self.arena()[key], self0.arena()[key]));
                        assert(is_container(self.arena(), key));
                        assert(children_of(self.arena(), key) == chs);
                        assert(layout_of(self.arena(), key) == layout);
                        assert(area_of(self.arena(), key) == r);
                        assert(node_same_shape(self0.arena()[key], pre.arena()[key]));
                        assert(children_of(pre.arena(), key) == chs);
                        assert(t.mset().contains(key));
                        assert(is_container(pre.arena(), key));
                        assert(children_wf(pre.arena(), t, key));
                        assert(chs.no_duplicates());
                        assert(len >= 1) by {
                            if key != t.root {
                                assert(children_of(pre.arena(), key).len() >= 1);
                            }
                        }
                        assert(len <= crate::tabs::MAX_NODES) by {
                            chs.unique_seq_to_set();
                            assert forall|x: ViewId| chs.to_set().contains(x) implies mset.contains(
                                x,
                            ) by {
                                let j = choose|j: int| 0 <= j < chs.len() && chs[j] == x;
                                assert(t.mset().contains(chs[j]));
                            }
                            vstd::set_lib::lemma_len_subset(chs.to_set(), mset);
                        }
                    }
                    match layout {
                        Layout::Horizontal => {
                            let hsh: usize = (r.height as usize) / len;
                            let mut y32: u32 = r.y as u32;
                            let bottom: u32 = r.y as u32 + r.height as u32;
                            let mut i: usize = 0;
                            while i < len
                                invariant
                                    chs == ch@,
                                    1 <= len == chs.len() <= crate::tabs::MAX_NODES,
                                    i <= len,
                                    hsh == r.height as int / len as int,
                                    bottom == r.y + r.height,
                                    y32 == r.y + i * (r.height as int / len as int),
                                    i * (r.height as int / len as int) <= r.height,
                                    chs.no_duplicates(),
                                    forall|j: int|
                                        0 <= j < chs.len() ==> !sched0.dom().contains(
                                            #[trigger] chs[j],
                                        ),
                                    stack@.len() == sbase.len() + i,
                                    stack@.subrange(0, sbase.len() as int) == sbase,
                                    forall|j: int|
                                        0 <= j < i ==> #[trigger] stack@[sbase.len() + j] == (
                                            chs[j],
                                            sched[chs[j]],
                                        ),
                                    forall|x: ViewId|
                                        #[trigger] sched0.dom().contains(x) ==> sched.dom().contains(
                                            x,
                                        ) && sched[x] == sched0[x],
                                    forall|x: ViewId|
                                        #[trigger] sched.dom().contains(x) ==> sched0.dom().contains(
                                            x,
                                        ) || chs.contains(x),
                                    forall|j: int|
                                        0 <= j < i ==> sched.dom().contains(#[trigger] chs[j]),
                                    forall|j: int|
                                        0 <= j < i ==> (r.valid() ==> sched[#[trigger] chs[j]]
                                            == h_slice(r, len as int, j)),
                                decreases len - i,
                            {
                                proof {
                                    lemma_share_bound(r.height as int, len as int, i as int);
                                    lemma_share_bound(r.height as int, len as int, i + 1);
                                    vstd::arithmetic::mul::lemma_mul_is_distributive_add_other_way(
                                        r.height as int / len as int,
                                        i as int,
                                        1,
                                    );
                                }
                                let hh: u16 = if i == len - 1 {
                                    (bottom - y32) as u16
                                } else {
                                    hsh as u16
                                };
                                let cy: u16 = clamp16(y32);
                                let child_rect = Rect { x: r.x, y: cy, width: r.width, height: hh };
                                let child = ch[i];
                                proof {
                                    if r.valid() {
                                        assert(child_rect == h_slice(r, len as int, i as int));
                                    }
                                }
                                stack.push((child, child_rect));
                                proof {
                                    sched = sched.insert(child, child_rect);
                                    assert(stack@.subrange(0, sbase.len() as int) =~= sbase);
                                    assert forall|j: int| 0 <= j < i + 1 implies #[trigger] stack@[sbase.len()
                                        + j] == (chs[j], sched[chs[j]]) by {
                                        if j < i {
                                            assert(chs[j] != chs[i as int]);
                                        }
                                    }
                                }
                                y32 = y32 + hsh as u32;
                                i = i + 1;
                            }
                            proof {
                                lemma_restore_container(
                                    pre, self0, *self, t, done0, sched0, sched, stack0, stack@,
                                    key, r, chs,
                                );
                                done = done0.insert(key);
                                vstd::set_lib::lemma_len_subset(done, mset);
                            }
                        },
                        Layout::Vertical => {
                            let wsh: usize = (r.width as usize) / len;
                            let mut x32: u32 = r.x as u32;
                            let right: u32 = r.x as u32 + r.width as u32;
                            let mut i: usize = 0;
                            while i < len
                                invariant
                                    chs == ch@,
                                    1 <= len == chs.len() <= crate::tabs::MAX_NODES,
                                    i <= len,
                                    wsh == r.width as int / len as int,
                                    right == r.x + r.width,
                                    x32 == r.x + i * (r.width as int / len as int + 1),
                                    i * (r.width as int / len as int + 1) <= r.width + i,
                                    chs.no_duplicates(),
                                    forall|j: int|
                                        0 <= j < chs.len() ==> !sched0.dom().contains(
                                            #[trigger] chs[j],
                                        ),
                                    stack@.len() == sbase.len() + i,
                                    stack@.subrange(0, sbase.len() as int) == sbase,
                                    forall|j: int|
                                        0 <= j < i ==> #[trigger] stack@[sbase.len() + j] == (
                                            chs[j],
                                            sched[chs[j]],
                                        ),
                                    forall|x: ViewId|
                                        #[trigger] sched0.dom().contains(x) ==> sched.dom().contains(
                                            x,
                                        ) && sched[x] == sched0[x],
                                    forall|x: ViewId|
                                        #[trigger] sched.dom().contains(x) ==> sched0.dom().contains(
                                            x,
                                        ) || chs.contains(x),
                                    forall|j: int|
                                        0 <= j < i ==> sched.dom().contains(#[trigger] chs[j]),
                                    forall|j: int|
                                        0 <= j < i ==> (r.valid() && v_fits(r, len as int)
                                            ==> sched[#[trigger] chs[j]] == v_slice(
                                            r,
                                            len as int,
                                            j,
                                        )),
                                decreases len - i,
                            {
                                proof {
                                    lemma_share_bound(r.width as int, len as int, i as int);
                                    lemma_share_bound(r.width as int, len as int, i + 1);
                                    vstd::arithmetic::mul::lemma_mul_is_distributive_add_other_way(
                                        r.width as int / len as int + 1,
                                        i as int,
                                        1,
                                    );
                                    vstd::arithmetic::mul::lemma_mul_is_distributive_add(
                                        i as int,
                                        r.width as int / len as int,
                                        1,
                                    );
                                    vstd::arithmetic::mul::lemma_mul_is_distributive_add(
                                        i + 1,
                                        r.width as int / len as int,
                                        1,
                                    );
                                }
                                let ww: u16 = if i == len - 1 {
                                    if right >= x32 {
                                        (right - x32) as u16
                                    } else {
                                        0
                                    }
                                } else {
                                    wsh as u16
                                };
                                let cx: u16 = clamp16(x32);
                                let child_rect = Rect { x: cx, y: r.y, width: ww, height: r.height };
                                let child = ch[i];
                                proof {
                                    if r.valid() && v_fits(r, len as int) {
                                        lemma_mul_inequality(
                                            i as int,
                                            len as int - 1,
                                            r.width as int / len as int + 1,
                                        );
                                        assert(x32 <= r.x + r.width);
                                        assert(child_rect == v_slice(r, len as int, i as int));
                                    }
                                }
                                stack.push((child, child_rect));
                                proof {
                                    sched = sched.insert(child, child_rect);
                                    assert(stack@.subrange(0, sbase.len() as int) =~= sbase);
                                    assert forall|j: int| 0 <= j < i + 1 implies #[trigger] stack@[sbase.len()
                                        + j] == (chs[j], sched[chs[j]]) by {
                                        if j < i {
                                            assert(chs[j] != chs[i as int]);
                                        }
                                    }
                                }
                                x32 = x32 + wsh as u32 + 1;
                                i = i + 1;
                            }
                            proof {
                                lemma_restore_container(
                                    pre, self0, *self, t, done0, sched0, sched, stack0, stack@,
                                    key, r, chs,
                                );
                                done = done0.insert(key);
                                vstd::set_lib::lemma_len_subset(done, mset);
                            }
                        },
                    }
                },
            }
        }

        proof {
            assert(stack@ =~= Seq::<(ViewId, Rect)>::empty());
            lemma_pass_complete(pre, *self, t, tab, done, sched);
            assert(self.tmap() == pre.tmap());
            assert(self.tmap()[tab] == t);
        }
    }

    /// Recomputes the layout of every workspace.
    pub fn recalculate(&mut self)
        requires
            old(self).wf(),
        ensures
            final(self).wf(),
            final(self).tmap().dom() == old(self).tmap().dom(),
            final(self).active() == old(self).active(),
            final(self).arena().dom() == old(self).arena().dom(),
            forall|tid: TabId|
                #[trigger] final(self).tmap().dom().contains(tid) ==> {
                    &&& final(self).tmap()[tid].id == old(self).tmap()[tid].id
                    &&& final(self).tmap()[tid].root == old(self).tmap()[tid].root
                    &&& final(self).tmap()[tid].area == old(self).tmap()[tid].area
                    &&& final(self).tmap()[tid].mset() == old(self).tmap()[tid].mset()
                    &&& (children_of(old(self).arena(), old(self).tmap()[tid].root).len() == 0
                        ==> final(self).tmap()[tid].focus == final(self).tmap()[tid].root)
                    &&& (children_of(old(self).arena(), old(self).tmap()[tid].root).len() != 0
                        ==> final(self).tmap()[tid].focus == old(self).tmap()[tid].focus
                            && tree_solved(final(self).arena(), final(self).tmap()[tid]))
                },
            forall|id: ViewId|
                #[trigger] old(self).arena().dom().contains(id) ==> node_same_shape(
                    final(self).arena()[id],
                    old(self).arena()[id],
                ),
    {
        let ghost pre = *old(self);
        let ids = self.trees.keys();
        let mut i: usize = 0;
        while i < ids.len()
            invariant
                pre.wf(),
                ids@.no_duplicates(),
                ids@.to_set() == pre.tmap().dom(),
                i <= ids@.len(),
                self.wf(),
                self.tmap().dom() == pre.tmap().dom(),
                self.active() == pre.active(),
                self.arena().dom() == pre.arena().dom(),
                forall|tid: TabId|
                    #[trigger] self.tmap().dom().contains(tid) ==> {
                        &&& self.tmap()[tid].id == pre.tmap()[tid].id
                        &&& self.tmap()[tid].root == pre.tmap()[tid].root
                        &&& self.tmap()[tid].area == pre.tmap()[tid].area
                        &&& self.tmap()[tid].mset() == pre.tmap()[tid].mset()
                    },
                forall|id: ViewId|
                    #[trigger] pre.arena().dom().contains(id) ==> node_same_shape(
                        self.arena()[id],
                        pre.arena()[id],
                    ),
                forall|j: int|
                    0 <= j < i ==> {
                        &&& (children_of(pre.arena(), pre.tmap()[#[trigger] ids@[j]].root).len()
                            == 0 ==> self.tmap()[ids@[j]].focus == self.tmap()[ids@[j]].root)
                        &&& (children_of(pre.arena(), pre.tmap()[ids@[j]].root).len() != 0
                            ==> self.tmap()[ids@[j]].focus == pre.tmap()[ids@[j]].focus
                                && tree_solved(self.arena(), self.tmap()[ids@[j]]))
                    },
                forall|j: int|
                    i <= j < ids@.len() ==> self.tmap()[#[trigger] ids@[j]].focus == pre.tmap()[
                        ids@[j]
                    ].focus,
            decreases ids@.len() - i,
        {
            let ghost mid = *self;
            let tab = ids[i];
            proof {
                assert(ids@.to_set().contains(ids@[i as int]));
            }
            self.recalculate_tab(tab);
            proof {
                assert forall|id: ViewId|
                    #[trigger] pre.arena().dom().contains(id) implies node_same_shape(
                    self.arena()[id],
                    pre.arena()[id],
                ) by {
                    if mid.mset_of(tab).contains(id) {
                        assert(node_same_shape(self.arena()[id], mid.arena()[id]));
                        assert(node_same_shape(mid.arena()[id], pre.arena()[id]));
                    } else {
                        assert(self.arena()[id] == mid.arena()[id]);
                        assert(node_same_shape(mid.arena()[id], pre.arena()[id]));
                    }
                }
                assert(children_of(mid.arena(), mid.tmap()[tab].root) == children_of(
                    pre.arena(),
                    pre.tmap()[tab].root,
                )) by {
                    assert(mid.tmap()[tab].root == pre.tmap()[tab].root);
                    let rt = pre.tmap()[tab].root;
                    assert(pre.tmap().dom().contains(tab));
                    assert(pre.tmap()[tab].mset().contains(rt));
                    assert(pre.arena().dom().contains(rt));
                    assert(node_same_shape(mid.arena()[rt], pre.arena()[rt]));
                    assert(is_container(pre.arena(), rt));
                }
                assert forall|j: int| 0 <= j < i + 1 implies {
                    &&& (children_of(pre.arena(), pre.tmap()[#[trigger] ids@[j]].root).len() == 0
                        ==> self.tmap()[ids@[j]].focus == self.tmap()[ids@[j]].root)
                    &&& (children_of(pre.arena(), pre.tmap()[ids@[j]].root).len() != 0
                        ==> self.tmap()[ids@[j]].focus == pre.tmap()[ids@[j]].focus
                            && tree_solved(self.arena(), self.tmap()[ids@[j]]))
                } by {
                    let tj = ids@[j];
                    assert(ids@.to_set().contains(tj));
                    assert(pre.tmap().dom().contains(tj));
                    if j < i {
                        assert(tj != tab) by {
                            if tj == tab {
                                assert(ids@[j] == ids@[i as int]);
                            }
                        }
                        assert(self.tmap()[tj] == mid.tmap()[tj]);
                        if children_of(pre.arena(), pre.tmap()[tj].root).len() != 0 {
                            assert(tree_solved(mid.arena(), mid.tmap()[tj]));
                            assert(tree_wf(mid.arena(), mid.tmap()[tj]));
                            assert forall|id: ViewId|
                                #[trigger] mid.tmap()[tj].mset().contains(id)
                                implies self.arena().dom().contains(id) && self.arena()[id]
                                == mid.arena()[id] by {
                                assert(!mid.mset_of(tab).contains(id)) by {
                                    assert(mid.tmap()[tj].mset().contains(id));
                                    assert(mid.tmap().dom().contains(tj));
                                    assert(mid.tmap().dom().contains(tab));
                                }
                                assert(mid.arena().dom().contains(id));
                            }
                            lemma_tree_solved_frame(mid.arena(), self.arena(), mid.tmap()[tj]);
                        }
                    } else {
                        assert(tj == tab);
                        if children_of(pre.arena(), pre.tmap()[tab].root).len() == 0 {
                            assert(children_of(mid.arena(), mid.tmap()[tab].root).len() == 0);
                            assert(self.tmap()[tab].focus == mid.tmap()[tab].focus);
                            assert(mid.tmap()[tab].focus == pre.tmap()[tab].focus);
                            assert(pre.tmap()[tab].focus == pre.tmap()[tab].root) by {
                                assert(tree_wf(pre.arena(), pre.tmap()[tab]));
                            }
                        } else {
                            assert(children_of(mid.arena(), mid.tmap()[tab].root).len() != 0);
                            assert(tree_solved(self.arena(), self.tmap()[tab]));
                        }
                    }
                }
                assert forall|j: int|
                    i + 1 <= j < ids@.len() implies self.tmap()[#[trigger] ids@[j]].focus
                    == pre.tmap()[ids@[j]].focus by {
                    assert(ids@[j] != ids@[i as int]);
                    assert(ids@.to_set().contains(ids@[j]));
                    assert(mid.tmap().dom().contains(ids@[j]));
                    assert(ids@[j] != tab);
                    assert(self.tmap()[ids@[j]] == mid.tmap()[ids@[j]]);
                }
            }
            i = i + 1;
        }
        proof {
            assert forall|tid: TabId| #[trigger] self.tmap().dom().contains(tid) implies {
                &&& (children_of(pre.arena(), pre.tmap()[tid].root).len() == 0 ==> self.tmap()[
                    tid
                ].focus == self.tmap()[tid].root)
                &&& (children_of(pre.arena(), pre.tmap()[tid].root).len() != 0 ==> self.tmap()[
                    tid
                ].focus == pre.tmap()[tid].focus && tree_solved(self.arena(), self.tmap()[tid]))
            } by {
                assert(ids@.to_set().contains(tid));
                let j = choose|j: int| 0 <= j < ids@.len() && ids@[j] == tid;
            }
        }
    }
}

} // verus!

