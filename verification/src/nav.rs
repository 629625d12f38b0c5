//! Traversal-order navigation: enumerating the panes of one workspace and
//! stepping the focus to the previous or next pane.

use vstd::prelude::*;
use crate::chains::{chain_to_root, has_chain, lemma_chain_covered, lemma_no_self_parent};
use crate::ids::{TabId, ViewId, key_eq};
use crate::geom::Rect;
use crate::node::{Container, Content, Direction, DocumentId, Layout, Node, Pane, area_of, children_of, is_container, is_pane, layout_of, node_eq, pane_of, parent_of};
use crate::tabs::Tabs;
use crate::tree::{Tree, children_wf, lemma_tree_wf_preserved, tree_wf};

verus! {

/// The depth-first pre-order sequence of panes below `id`, with a fuel
/// bound on the descent depth; `pane_order` below instantiates the fuel so
/// that it never runs out inside a well-formed tree.
pub open spec fn preorder(a: Map<ViewId, Node>, id: ViewId, fuel: nat) -> Seq<ViewId>
    decreases fuel, 0int, 0int,
{
    if is_pane(a, id) {
        seq![id]
    } else if fuel == 0 || !is_container(a, id) {
        Seq::empty()
    } else {
        preorder_list(a, children_of(a, id), (fuel - 1) as nat)
    }
}

/// The concatenated pre-orders of a run of siblings, left to right.
pub open spec fn preorder_list(a: Map<ViewId, Node>, ids: Seq<ViewId>, fuel: nat) -> Seq<
    ViewId,
>
    decreases fuel, 1int, ids.len(),
{
    if ids.len() == 0 {
        Seq::empty()
    } else {
        preorder(a, ids[0], fuel) + preorder_list(a, ids.skip(1), fuel)
    }
}

/// The traversal order of one workspace: its panes in depth-first
/// pre-order from the root.  The member count bounds the descent depth,
/// which suffices because a member sits fewer hops from the root than the
/// tree has members.
pub open spec fn pane_order(a: Map<ViewId, Node>, t: Tree) -> Seq<ViewId> {
    preorder(a, t.root, t.mset().len())
}

/// The panes still owed by a traversal work stack: the pre-orders of its
/// entries, popped from the end, each with its own remaining fuel.
spec fn stack_orders(a: Map<ViewId, Node>, s: Seq<ViewId>, fs: Seq<nat>) -> Seq<ViewId>
    decreases s.len(),
{
    if s.len() == 0 {
        Seq::empty()
    } else {
        preorder(a, s.last(), fs.last()) + stack_orders(a, s.drop_last(), fs.drop_last())
    }
}

/// Pushing a container's children in reverse schedules exactly that
/// container's remaining pre-order in front of the rest of the stack.
proof fn lemma_stack_push_children(
    a: Map<ViewId, Node>,
    s: Seq<ViewId>,
    fs: Seq<nat>,
    ids: Seq<ViewId>,
    g: nat,
)
    requires
        fs.len() == s.len(),
    ensures
        stack_orders(a, s + ids.reverse(), fs + Seq::new(ids.len(), |q: int| g))
            == preorder_list(a, ids, g) + stack_orders(a, s, fs),
    decreases ids.len(),
{
    let rev = ids.reverse();
    let gs = Seq::new(ids.len(), |q: int| g);
    if ids.len() == 0 {
        assert(s + rev =~= s);
        assert(fs + gs =~= fs);
        assert(preorder_list(a, ids, g) + stack_orders(a, s, fs) =~= stack_orders(a, s, fs));
    } else {
        let h = ids[0];
        let tl = ids.skip(1);
        let gs1 = Seq::new(tl.len(), |q: int| g);
        assert((s + rev).len() == s.len() + ids.len());
        assert((s + rev).last() == h) by {
            assert(rev[ids.len() - 1] == ids[0]);
        }
        assert((fs + gs).last() == g);
        assert((s + rev).drop_last() =~= s + tl.reverse()) by {
            assert forall|j: int|
                0 <= j < s.len() + ids.len() - 1 implies (s + rev).drop_last()[j] == (s
                + tl.reverse())[j] by {
                if j >= s.len() {
                    assert(rev[j - s.len()] == ids[ids.len() - 1 - (j - s.len())]);
                    assert(tl.reverse()[j - s.len()] == tl[tl.len() - 1 - (j - s.len())]);
                    assert(tl[tl.len() - 1 - (j - s.len())] == ids[ids.len() - 1 - (j
                        - s.len())]);
                }
            }
        }
        assert((fs + gs).drop_last() =~= fs + gs1);
        lemma_stack_push_children(a, s, fs, tl, g);
        assert(stack_orders(a, s + rev, fs + gs) == preorder(a, h, g) + stack_orders(
            a,
            s + tl.reverse(),
            fs + gs1,
        ));
        assert(preorder_list(a, ids, g) == preorder(a, h, g) + preorder_list(a, tl, g));
        assert(preorder(a, h, g) + (preorder_list(a, tl, g) + stack_orders(a, s, fs)) =~= (
        preorder(a, h, g) + preorder_list(a, tl, g)) + stack_orders(a, s, fs));
    }
}


/// Whether the desired movement is impossible inside a container with this
/// axis, so the search must climb toward the root.
pub open spec fn climbs(dir: Direction, lay: Layout) -> bool {
    match (dir, lay) {
        (Direction::Up, Layout::Vertical) => true,
        (Direction::Down, Layout::Vertical) => true,
        (Direction::Left, Layout::Horizontal) => true,
        (Direction::Right, Layout::Horizontal) => true,
        _ => false,
    }
}

/// The sibling one step toward `dir` from `id` in the child list `ch`, or
/// nothing at the list's edge.  Meaningful when `id` occurs once in `ch`.
pub open spec fn sibling_step(ch: Seq<ViewId>, id: ViewId, dir: Direction) -> Option<ViewId>
    recommends
        ch.no_duplicates(),
{
    if !ch.contains(id) {
        None
    } else {
        let i = choose|i: int| 0 <= i < ch.len() && ch[i] == id;
        match dir {
            Direction::Up | Direction::Left => if i == 0 {
                None
            } else {
                Some(ch[i - 1])
            },
            Direction::Down | Direction::Right => if i == ch.len() - 1 {
                None
            } else {
                Some(ch[i + 1])
            },
        }
    }
}

/// The absolute distance between the reference coordinate and a node's
/// near edge on the chosen axis.
pub open spec fn edge_dist(a: Map<ViewId, Node>, id: ViewId, pick_x: bool, refc: u16) -> int {
    let e: u16 = if pick_x {
        area_of(a, id).x
    } else {
        area_of(a, id).y
    };
    if refc >= e {
        refc - e
    } else {
        e - refc
    }
}

/// The first child whose near edge is closest to the reference coordinate.
pub open spec fn best_child_at(
    a: Map<ViewId, Node>,
    ch: Seq<ViewId>,
    pick_x: bool,
    refc: u16,
) -> int {
    choose|j: int|
        0 <= j < ch.len() && (forall|k: int|
            0 <= k < ch.len() ==> edge_dist(a, #[trigger] ch[j], pick_x, refc) <= edge_dist(
                a,
                ch[k],
                pick_x,
                refc,
            )) && (forall|k: int|
            0 <= k < j ==> edge_dist(a, #[trigger] ch[k], pick_x, refc) > edge_dist(
                a,
                ch[j],
                pick_x,
                refc,
            ))
}

/// The descent of the sibling search: from `id` downward, in each
/// container picking the child nearest the focused pane's cross-axis
/// coordinate, until a pane is reached.
pub open spec fn descend_target(
    a: Map<ViewId, Node>,
    id: ViewId,
    cx: u16,
    cy: u16,
    fuel: nat,
) -> Option<ViewId>
    decreases fuel,
{
    if is_pane(a, id) {
        Some(id)
    } else if !is_container(a, id) || children_of(a, id).len() == 0 || fuel == 0 {
        None
    } else {
        let pick_x = match layout_of(a, id) {
            Layout::Vertical => true,
            Layout::Horizontal => false,
        };
        let refc = if pick_x {
            cx
        } else {
            cy
        };
        let ch = children_of(a, id);
        descend_target(a, ch[best_child_at(a, ch, pick_x, refc)], cx, cy, (fuel - 1) as nat)
    }
}

/// One sibling step toward `dir`, then the descent, anchored at the
/// focused pane's coordinates; nothing when there is no such sibling or
/// the focus is not a pane.
pub open spec fn child_target(
    a: Map<ViewId, Node>,
    t: Tree,
    ch: Seq<ViewId>,
    id: ViewId,
    dir: Direction,
) -> Option<ViewId> {
    match sibling_step(ch, id, dir) {
        Option::None => Option::None,
        Option::Some(st) => {
            if !is_pane(a, t.focus) {
                Option::None
            } else {
                descend_target(
                    a,
                    st,
                    pane_of(a, t.focus).area.x,
                    pane_of(a, t.focus).area.y,
                    t.mset().len(),
                )
            }
        },
    }
}

/// The directional search of the spatial navigator: climb past containers
/// whose axis cannot host the movement, step one sibling over and descend,
/// and on a failed step keep climbing — the documented approximation for
/// irregular layouts.
pub open spec fn search_target(
    a: Map<ViewId, Node>,
    t: Tree,
    id: ViewId,
    dir: Direction,
) -> Option<ViewId>
    decreases crate::chains::depth_of(a, t.root, id),
        when tree_wf(a, t) && t.mset().contains(id)
        via search_target_dec
{
    let p = parent_of(a, id);
    if p == id {
        Option::None
    } else if climbs(dir, layout_of(a, p)) {
        search_target(a, t, p, dir)
    } else {
        match child_target(a, t, children_of(a, p), id, dir) {
            Option::Some(v) => Option::Some(v),
            Option::None => search_target(a, t, p, dir),
        }
    }
}

#[via_fn]
proof fn search_target_dec(a: Map<ViewId, Node>, t: Tree, id: ViewId, dir: Direction) {
    let p = parent_of(a, id);
    if p != id {
        assert(id != t.root);
        assert(t.mset().contains(p));
        crate::chains::lemma_depth_parent(a, t.root, id);
    }
}

/// Stepping to the wrap-around successor and then back to the predecessor
/// returns to the start, and the other way round: `prev` inverts `next`
/// under the traversal order, whatever the pane count.
pub proof fn lemma_prev_inverts_next(ord: Seq<ViewId>, x: ViewId)
    requires
        ord.no_duplicates(),
        ord.contains(x),
    ensures
        crate::tabs::pred_wrapping(ord, crate::tabs::succ_wrapping(ord, x)) == x,
        crate::tabs::succ_wrapping(ord, crate::tabs::pred_wrapping(ord, x)) == x,
{
    let i = choose|i: int| 0 <= i < ord.len() && ord[i] == x;
    let nx = crate::tabs::succ_wrapping(ord, x);
    let j = if i < ord.len() - 1 {
        i + 1
    } else {
        0
    };
    assert(nx == ord[j]);
    assert(ord.contains(nx));
    assert forall|k: int| 0 <= k < ord.len() && ord[k] == nx implies k == j by {}
    let jj = choose|jj: int| 0 <= jj < ord.len() && ord[jj] == nx;
    assert(jj == j);
    assert(crate::tabs::pred_wrapping(ord, nx) == x) by {
        if j > 0 {
            assert(ord[j - 1] == x);
        } else {
            assert(i == ord.len() - 1);
        }
    }
    let pv = crate::tabs::pred_wrapping(ord, x);
    let p = if i > 0 {
        i - 1
    } else {
        ord.len() - 1
    };
    assert(pv == ord[p]);
    assert(ord.contains(pv));
    let pp = choose|pp: int| 0 <= pp < ord.len() && ord[pp] == pv;
    assert(pp == p);
    assert(crate::tabs::succ_wrapping(ord, pv) == x) by {
        if p < ord.len() - 1 {
            assert(ord[p + 1] == x);
        } else {
            assert(i == 0);
        }
    }
}


impl Tabs {
    /// Enumerates the panes of workspace `tab` in depth-first pre-order:
    /// every member pane exactly once.
    #[verifier::rlimit(100)]
    pub fn traverse(&self, tab: TabId) -> (r: Vec<ViewId>)
        requires
            self.wf(),
            self.tmap().dom().contains(tab),
        ensures
            r@ == pane_order(self.arena(), self.tmap()[tab]),
            r@.no_duplicates(),
            forall|i: int|
                0 <= i < r@.len() ==> self.mset_of(tab).contains(#[trigger] r@[i]) && is_pane(
                    self.arena(),
                    r@[i],
                ),
            forall|m: ViewId|
                #[trigger] self.mset_of(tab).contains(m) && is_pane(self.arena(), m)
                    ==> r@.contains(m),
    {
        let ghost a = self.arena();
        let ghost t = self.tmap()[tab];
        let ghost mset = t.mset();
        let tree_ref = self.trees.get(tab).unwrap();
        let root = tree_ref.root;
        let mut out: Vec<ViewId> = Vec::new();
        let mut stack: Vec<ViewId> = Vec::new();
        stack.push(root);
        let ghost mut done: Set<ViewId> = Set::empty();
        let ghost mut fs: Seq<nat> = seq![mset.len()];
        proof {
            assert(tree_wf(a, t));
            assert(mset.finite()) by {
                assert forall|x: ViewId| mset.contains(x) implies a.dom().contains(x) by {
                    assert(t.mset().contains(x));
                }
                vstd::set_lib::lemma_set_subset_finite(a.dom(), mset);
            }
            assert(stack@ =~= seq![root]);
            assert(stack@[0] == root);
            assert(stack_orders(a, stack@, fs) == preorder(a, root, mset.len()) + stack_orders(
                a,
                Seq::empty(),
                Seq::empty(),
            )) by {
                assert(stack@.drop_last() =~= Seq::<ViewId>::empty());
                assert(fs.drop_last() =~= Seq::<nat>::empty());
            }
            assert(pane_order(a, t) =~= out@ + stack_orders(a, stack@, fs));
            assert(crate::chains::depth_of(a, root, root) == 0) by {
                assert(chain_to_root(a, root, root, 0));
                crate::chains::lemma_depth(a, root, root);
            }
        }
        while stack.len() > 0
            invariant
                self.wf(),
                self.tmap().dom().contains(tab),
                a == self.arena(),
                t == self.tmap()[tab],
                mset == t.mset(),
                mset.finite(),
                root == t.root,
                done.finite(),
                done.subset_of(mset),
                stack@.no_duplicates(),
                forall|j: int|
                    0 <= j < stack@.len() ==> mset.contains(#[trigger] stack@[j])
                        && !done.contains(stack@[j]),
                done.contains(root) || stack@.contains(root),
                forall|x: ViewId|
                    (#[trigger] done.contains(x) || stack@.contains(x)) && x != root
                        ==> done.contains(parent_of(a, x)),
                forall|d: ViewId, j: int|
                    #[trigger] done.contains(d) && is_container(a, d) && 0 <= j < children_of(
                        a,
                        d,
                    ).len() ==> {
                        let c = #[trigger] children_of(a, d)[j];
                        done.contains(c) || stack@.contains(c)
                    },
                out@.no_duplicates(),
                forall|i: int|
                    0 <= i < out@.len() ==> done.contains(#[trigger] out@[i]) && is_pane(
                        a,
                        out@[i],
                    ),
                forall|d: ViewId|
                    #[trigger] done.contains(d) && is_pane(a, d) ==> out@.contains(d),
                fs.len() == stack@.len(),
                forall|k: int|
                    0 <= k < stack@.len() ==> #[trigger] fs[k] + crate::chains::depth_of(
                        a,
                        root,
                        stack@[k],
                    ) >= mset.len(),
                pane_order(a, t) == out@ + stack_orders(a, stack@, fs),
            decreases mset.len() - done.len(),
        {
            let ghost stack_in = stack@;
            let ghost done0 = done;
            let ghost out0 = out@;
            let ghost fs_in = fs;
            let key = stack.pop().unwrap();
            let ghost f = fs.last();
            proof {
                fs = fs.drop_last();
                assert(stack_orders(a, stack_in, fs_in) == preorder(a, key, f) + stack_orders(
                    a,
                    stack@,
                    fs,
                )) by {
                    assert(stack_in.drop_last() =~= stack@);
                }
                assert(fs_in[stack_in.len() - 1] + crate::chains::depth_of(a, root, key)
                    >= mset.len());
                assert(stack_in[stack_in.len() - 1] == key);
                assert(mset.contains(key));
                assert(!done.contains(key));
                assert(stack@ =~= stack_in.subrange(0, stack_in.len() - 1));
                assert(!stack@.contains(key)) by {
                    if stack@.contains(key) {
                        let j = choose|j: int| 0 <= j < stack@.len() && stack@[j] == key;
                        assert(stack_in[j] == key);
                    }
                }
                assert(a.dom().contains(key)) by {
                    assert(t.mset().contains(key));
                }
            }
            let node_ref = self.nodes.get(key).unwrap();
            match &node_ref.content {
                Content::Pane(_) => {
                    out.push(key);
                    proof {
                        done = done0.insert(key);
                        vstd::set_lib::lemma_len_subset(done, mset);
                        assert(out@ =~= out0.push(key));
                        assert(preorder(a, key, f) == seq![key]) by {
                            assert(is_pane(a, key));
                        }
                        assert(pane_order(a, t) == out@ + stack_orders(a, stack@, fs)) by {
                            assert(out0.push(key) =~= out0 + seq![key]);
                            assert((out0 + seq![key]) + stack_orders(a, stack@, fs) =~= out0 + (
                            seq![key] + stack_orders(a, stack@, fs)));
                        }
                        assert(!out0.contains(key)) by {
                            if out0.contains(key) {
                                let j = choose|j: int| 0 <= j < out0.len() && out0[j] == key;
                                assert(done0.contains(out0[j]));
                            }
                        }
                        assert forall|d: ViewId|
                            #[trigger] done.contains(d) && is_pane(a, d) implies out@.contains(
                            d,
                        ) by {
                            if d == key {
                                assert(out@[out@.len() - 1] == key);
                            } else {
                                assert(out0.contains(d));
                                let j = choose|j: int| 0 <= j < out0.len() && out0[j] == d;
                                assert(out@[j] == d);
                            }
                        }
                        assert forall|x: ViewId|
                            (#[trigger] done.contains(x) || stack@.contains(x)) && x != root
                            implies done.contains(parent_of(a, x)) by {
                            if x == key || done0.contains(x) {
                                assert(stack_in.contains(x) || done0.contains(x)) by {
                                    if x == key {
                                        assert(stack_in[stack_in.len() - 1] == key);
                                    }
                                }
                            } else {
                                let j = choose|j: int| 0 <= j < stack@.len() && stack@[j] == x;
                                assert(stack_in[j] == x);
                                assert(stack_in.contains(x));
                            }
                        }
                        assert forall|d: ViewId, j: int|
                            #[trigger] done.contains(d) && is_container(a, d) && 0 <= j
                                < children_of(a, d).len() implies {
                            let c = #[trigger] children_of(a, d)[j];
                            done.contains(c) || stack@.contains(c)
                        } by {
                            if d != key {
                                assert(done0.contains(d));
                                let c = children_of(a, d)[j];
                                assert(done0.contains(c) || stack_in.contains(c));
                                if !done0.contains(c) && c != key {
                                    let jj = choose|jj: int|
                                        0 <= jj < stack_in.len() && stack_in[jj] == c;
                                    assert(jj < stack_in.len() - 1);
                                    assert(stack@[jj] == c);
                                }
                            } else {
                                assert(is_pane(a, key));
                            }
                        }
                        assert(done.contains(root) || stack@.contains(root)) by {
                            if !done0.contains(root) && root != key {
                                let j = choose|j: int|
                                    0 <= j < stack_in.len() && stack_in[j] == root;
                                assert(j < stack_in.len() - 1);
                                assert(stack@[j] == root);
                            }
                        }
                    }
                },
                Content::Container(c) => {
                    let ghost chs = c.children@;
                    proof {
                        done = done0.insert(key);
                        vstd::set_lib::lemma_len_subset(done, mset);
                        crate::tree::lemma_depth_bound(a, t, key);
                        assert(f >= 1);
                        assert(preorder(a, key, f) == preorder_list(a, chs, (f - 1) as nat)) by {
                            assert(!is_pane(a, key) && is_container(a, key));
                        }
                        assert(chs == children_of(a, key));
                        assert(children_wf(a, t, key));
                        assert forall|j: int| 0 <= j < chs.len() implies {
                            &&& mset.contains(#[trigger] chs[j])
                            &&& chs[j] != root
                            &&& chs[j] != key
                            &&& !done0.contains(chs[j])
                            &&& !stack_in.contains(chs[j])
                        } by {
                            assert(t.mset().contains(chs[j]));
                            assert(parent_of(a, chs[j]) == key);
                            if chs[j] == key {
                                assert(t.mset().contains(key));
                                if key != root {
                                    lemma_no_self_parent(a, root, key);
                                }
                            }
                            if done0.contains(chs[j]) || stack_in.contains(chs[j]) {
                                assert(done0.contains(key));
                            }
                        }
                    }
                    // push the children in reverse so they pop in order
                    let mut k: usize = c.children.len();
                    while k > 0
                        invariant
                            self.wf(),
                            a == self.arena(),
                            chs == c.children@,
                            stack_in.len() >= 1,
                            k <= chs.len(),
                            stack@.len() == stack_in.len() - 1 + (chs.len() - k),
                            stack@.subrange(0, stack_in.len() - 1) == stack_in.subrange(
                                0,
                                stack_in.len() - 1,
                            ),
                            forall|j: int|
                                0 <= j < chs.len() - k ==> #[trigger] stack@[stack_in.len() - 1
                                    + j] == chs[chs.len() - 1 - j],
                        decreases k,
                    {
                        let ghost spre = stack@;
                        k = k - 1;
                        stack.push(c.children[k]);
                        proof {
                            assert(stack@ == spre.push(chs[k as int]));
                            assert(stack@.subrange(0, stack_in.len() - 1) =~= stack_in.subrange(
                                0,
                                stack_in.len() - 1,
                            ));
                            assert forall|j: int| 0 <= j < chs.len() - k implies #[trigger] stack@[
                                stack_in.len() - 1 + j
                            ] == chs[chs.len() - 1 - j] by {
                                if j < chs.len() - k - 1 {
                                    assert(stack@[stack_in.len() - 1 + j] == spre[stack_in.len()
                                        - 1 + j]);
                                } else {
                                    assert(stack_in.len() - 1 + j == stack@.len() - 1);
                                    assert(stack@[stack@.len() - 1] == chs[k as int]);
                                }
                            }
                        }
                    }
                    proof {
                        let ghost fs0 = fs;
                        let ghost stack0 = stack_in.drop_last();
                        fs = fs.add(Seq::new(chs.len(), |q: int| (f - 1) as nat));
                        assert(stack@ =~= stack0 + chs.reverse()) by {
                            assert forall|j: int| 0 <= j < stack@.len() implies stack@[j] == (
                            stack0 + chs.reverse())[j] by {
                                if j < stack_in.len() - 1 {
                                    assert(stack@[j] == stack@.subrange(
                                        0,
                                        stack_in.len() - 1,
                                    )[j]);
                                    assert(stack@[j] == stack_in.subrange(
                                        0,
                                        stack_in.len() - 1,
                                    )[j]);
                                } else {
                                    let q = j - (stack_in.len() - 1);
                                    assert(stack@[stack_in.len() - 1 + q] == chs[chs.len() - 1
                                        - q]);
                                    assert(chs.reverse()[q] == chs[chs.len() - 1 - q]);
                                }
                            }
                        }
                        lemma_stack_push_children(a, stack0, fs0, chs, (f - 1) as nat);
                        assert(pane_order(a, t) == out@ + stack_orders(a, stack@, fs)) by {
                            assert(stack_orders(a, stack@, fs) == preorder_list(
                                a,
                                chs,
                                (f - 1) as nat,
                            ) + stack_orders(a, stack0, fs0));
                            assert(out@ + (preorder(a, key, f) + stack_orders(a, stack0, fs0))
                                =~= out@ + stack_orders(a, stack@, fs));
                        }
                        assert forall|k: int|
                            0 <= k < stack@.len() implies #[trigger] fs[k]
                            + crate::chains::depth_of(a, root, stack@[k]) >= mset.len() by {
                            if k < stack0.len() {
                                assert(fs[k] == fs0[k]);
                                assert(fs0[k] == fs_in[k]);
                                assert(stack@[k] == stack_in[k]);
                            } else {
                                let q = k - stack0.len();
                                assert(fs[k] == (f - 1) as nat);
                                assert(stack@[stack_in.len() - 1 + q] == chs[chs.len() - 1 - q]);
                                let ch = chs[chs.len() - 1 - q];
                                assert(t.mset().contains(ch) && parent_of(a, ch) == key && ch
                                    != root);
                                assert(a.dom().contains(ch)) by {
                                    assert(t.mset().contains(ch));
                                }
                                crate::chains::lemma_depth_child(a, root, key, ch);
                            }
                        }
                        let base = stack_in.len() - 1;
                        assert forall|j: int| 0 <= j < stack_in.len() - 1 implies #[trigger] stack@[j]
                            == stack_in[j] by {
                            assert(stack@.subrange(0, stack_in.len() - 1)[j] == stack_in.subrange(
                                0,
                                stack_in.len() - 1,
                            )[j]);
                        }
                        assert forall|j: int| 0 <= j < stack@.len() implies mset.contains(
                            #[trigger] stack@[j],
                        ) && !done.contains(stack@[j]) by {
                            if j < base {
                                assert(stack@[j] == stack@.subrange(0, base)[j]);
                                assert(stack@[j] == stack_in[j]);
                                assert(mset.contains(stack_in[j]));
                                assert(stack_in[j] != key) by {
                                    if stack_in[j] == key {
                                        assert(stack_in[stack_in.len() - 1] == key);
                                    }
                                }
                            } else {
                                assert(stack@[base + (j - base)] == chs[chs.len() - 1 - (j
                                    - base)]);
                            }
                        }
                        assert(stack@.no_duplicates()) by {
                            assert forall|i2: int, j2: int|
                                0 <= i2 < stack@.len() && 0 <= j2 < stack@.len() && i2 != j2
                                implies stack@[i2] != stack@[j2] by {
                                if i2 < base && j2 < base {
                                    assert(stack@[i2] == stack_in[i2]);
                                    assert(stack@[j2] == stack_in[j2]);
                                } else if i2 < base && j2 >= base {
                                    assert(stack@[i2] == stack_in[i2]);
                                    assert(stack@[base + (j2 - base)] == chs[chs.len() - 1 - (j2
                                        - base)]);
                                    if stack_in[i2] == chs[chs.len() - 1 - (j2 - base)] {
                                        assert(stack_in.contains(chs[chs.len() - 1 - (j2 - base)]));
                                    }
                                } else if i2 >= base && j2 < base {
                                    assert(stack@[j2] == stack_in[j2]);
                                    assert(stack@[base + (i2 - base)] == chs[chs.len() - 1 - (i2
                                        - base)]);
                                    if stack_in[j2] == chs[chs.len() - 1 - (i2 - base)] {
                                        assert(stack_in.contains(chs[chs.len() - 1 - (i2 - base)]));
                                    }
                                } else {
                                    assert(stack@[base + (i2 - base)] == chs[chs.len() - 1 - (i2
                                        - base)]);
                                    assert(stack@[base + (j2 - base)] == chs[chs.len() - 1 - (j2
                                        - base)]);
                                }
                            }
                        }
                        assert forall|x: ViewId|
                            (#[trigger] done.contains(x) || stack@.contains(x)) && x != root
                            implies done.contains(parent_of(a, x)) by {
                            if done0.contains(x) {
                            } else if x == key {
                                assert(stack_in[stack_in.len() - 1] == key);
                                assert(stack_in.contains(x));
                            } else if stack@.contains(x) {
                                let j = choose|j: int| 0 <= j < stack@.len() && stack@[j] == x;
                                if j < base {
                                    assert(stack@[j] == stack_in[j]);
                                    assert(stack_in.contains(x));
                                } else {
                                    assert(stack@[base + (j - base)] == chs[chs.len() - 1 - (j
                                        - base)]);
                                    assert(parent_of(a, x) == key);
                                }
                            }
                        }
                        assert forall|d: ViewId, j: int|
                            #[trigger] done.contains(d) && is_container(a, d) && 0 <= j
                                < children_of(a, d).len() implies {
                            let cc = #[trigger] children_of(a, d)[j];
                            done.contains(cc) || stack@.contains(cc)
                        } by {
                            let cc = children_of(a, d)[j];
                            if d == key {
                                assert(cc == chs[j]);
                                let jj = chs.len() - 1 - j;
                                assert(stack@[base + jj] == chs[chs.len() - 1 - jj]);
                                assert(stack@.contains(cc));
                            } else {
                                assert(done0.contains(d));
                                assert(done0.contains(cc) || stack_in.contains(cc));
                                if !done0.contains(cc) && cc != key {
                                    let jj = choose|jj: int|
                                        0 <= jj < stack_in.len() && stack_in[jj] == cc;
                                    assert(jj < stack_in.len() - 1);
                                    assert(stack@[jj] == stack_in[jj]);
                                    assert(stack@.contains(cc));
                                }
                            }
                        }
                        assert(done.contains(root) || stack@.contains(root)) by {
                            if !done0.contains(root) && root != key {
                                let j = choose|j: int|
                                    0 <= j < stack_in.len() && stack_in[j] == root;
                                assert(j < stack_in.len() - 1);
                                assert(stack@[j] == stack_in[j]);
                                assert(stack@.contains(root));
                            }
                        }
                    }
                },
            }
        }
        proof {
            assert forall|m: ViewId|
                #[trigger] mset.contains(m) && is_pane(a, m) implies out@.contains(m) by {
                let n = choose|n: nat| chain_to_root(a, root, m, n);
                lemma_chain_covered(a, root, mset, done, m, n);
            }
            assert(out@ == pane_order(a, t)) by {
                assert(stack@.len() == 0);
                assert(stack_orders(a, stack@, fs) =~= Seq::<ViewId>::empty());
                assert(out@ + Seq::<ViewId>::empty() =~= out@);
            }
        }
        out
    }

    /// The pane before the focus in traversal order, wrapping to the last
    /// pane when the focus is first.
    pub fn prev(&self, tab: TabId) -> (r: ViewId)
        requires
            self.wf(),
            self.tmap().dom().contains(tab),
            children_of(self.arena(), self.tmap()[tab].root).len() != 0,
        ensures
            r == crate::tabs::pred_wrapping(
                pane_order(self.arena(), self.tmap()[tab]),
                self.tmap()[tab].focus,
            ),
            self.mset_of(tab).contains(r),
            is_pane(self.arena(), r),
            (exists|m: ViewId|
                self.mset_of(tab).contains(m) && is_pane(self.arena(), m) && m != self.tmap()[
                    tab
                ].focus) ==> r != self.tmap()[tab].focus,
    {
        let order = self.traverse(tab);
        let focus = self.trees.get(tab).unwrap().focus;
        proof {
            assert(is_pane(self.arena(), self.tmap()[tab].focus));
            assert(self.mset_of(tab).contains(focus));
            assert(order@.contains(focus));
        }
        let idx = index_in(&order, focus);
        let r = if idx > 0 {
            order[idx - 1]
        } else {
            order[order.len() - 1]
        };
        proof {
            let o = order@;
            let i = idx as int;
            let ci = choose|ci: int| 0 <= ci < o.len() && o[ci] == focus;
            assert(ci == i) by {
                assert(o[ci] == o[i]);
            }
            assert(r == crate::tabs::pred_wrapping(o, focus));
            if exists|m: ViewId|
                self.mset_of(tab).contains(m) && is_pane(self.arena(), m) && m != focus {
                let m = choose|m: ViewId|
                    self.mset_of(tab).contains(m) && is_pane(self.arena(), m) && m != focus;
                assert(o.contains(m));
                let j = choose|j: int| 0 <= j < o.len() && o[j] == m;
                assert(o.len() >= 2) by {
                    if o.len() < 2 {
                        assert(j == i);
                    }
                }
                if idx > 0 {
                    assert(o[i - 1] != o[i]);
                } else {
                    assert(o[o.len() - 1] != o[0]);
                }
            }
        }
        r
    }

    /// The pane after the focus in traversal order, wrapping to the first
    /// pane when the focus is last.
    pub fn next(&self, tab: TabId) -> (r: ViewId)
        requires
            self.wf(),
            self.tmap().dom().contains(tab),
            children_of(self.arena(), self.tmap()[tab].root).len() != 0,
        ensures
            r == crate::tabs::succ_wrapping(
                pane_order(self.arena(), self.tmap()[tab]),
                self.tmap()[tab].focus,
            ),
            self.mset_of(tab).contains(r),
            is_pane(self.arena(), r),
            (exists|m: ViewId|
                self.mset_of(tab).contains(m) && is_pane(self.arena(), m) && m != self.tmap()[
                    tab
                ].focus) ==> r != self.tmap()[tab].focus,
    {
        let order = self.traverse(tab);
        let focus = self.trees.get(tab).unwrap().focus;
        proof {
            assert(is_pane(self.arena(), self.tmap()[tab].focus));
            assert(self.mset_of(tab).contains(focus));
            assert(order@.contains(focus));
        }
        let idx = index_in(&order, focus);
        let r = if idx < order.len() - 1 {
            order[idx + 1]
        } else {
            order[0]
        };
        proof {
            let o = order@;
            let i = idx as int;
            let ci = choose|ci: int| 0 <= ci < o.len() && o[ci] == focus;
            assert(ci == i) by {
                assert(o[ci] == o[i]);
            }
            assert(r == crate::tabs::succ_wrapping(o, focus));
            if exists|m: ViewId|
                self.mset_of(tab).contains(m) && is_pane(self.arena(), m) && m != focus {
                let m = choose|m: ViewId|
                    self.mset_of(tab).contains(m) && is_pane(self.arena(), m) && m != focus;
                assert(o.contains(m));
                let j = choose|j: int| 0 <= j < o.len() && o[j] == m;
                assert(o.len() >= 2) by {
                    if o.len() < 2 {
                        assert(j == i);
                    }
                }
                if idx + 1 < order.len() {
                    assert(o[i + 1] != o[i]);
                } else {
                    assert(i == o.len() - 1);
                    assert(o[0] != o[i]);
                }
            }
        }
        r
    }
}

/// The position of `x` in `v`, which must occur in it.
fn index_in(v: &Vec<ViewId>, x: ViewId) -> (r: usize)
    requires
        v@.contains(x),
    ensures
        r < v@.len(),
        v@[r as int] == x,
{
    let mut i: usize = 0;
    while i < v.len()
        invariant
            v@.contains(x),
            i <= v@.len(),
            forall|j: int| 0 <= j < i ==> v@[j] != x,
        decreases v@.len() - i,
    {
        if key_eq(v[i], x) {
            return i;
        }
        i = i + 1;
    }
    proof {
        let j = choose|j: int| 0 <= j < v@.len() && v@[j] == x;
        assert(v@[j] != x);
    }
    0
}

/// How one swap changes the arena: the two panes exchange rectangles, and
/// their entries (and, across containers, their parent links) exchange
/// places, so traversal order and screen geometry are both kept.
pub open spec fn swap_spec(
    a0: Map<ViewId, Node>,
    a1: Map<ViewId, Node>,
    f: ViewId,
    t: ViewId,
) -> bool {
    let fp = parent_of(a0, f);
    let tp = parent_of(a0, t);
    &&& a1.dom() == a0.dom()
    &&& forall|m: ViewId|
        a0.dom().contains(m) && m != f && m != t && m != fp && m != tp ==> a1[m]
            == #[trigger] a0[m]
    &&& is_pane(a1, f) && is_pane(a1, t)
    &&& pane_of(a1, f).id == pane_of(a0, f).id && pane_of(a1, f).doc == pane_of(a0, f).doc
    &&& pane_of(a1, t).id == pane_of(a0, t).id && pane_of(a1, t).doc == pane_of(a0, t).doc
    &&& pane_of(a1, f).area == pane_of(a0, t).area
    &&& pane_of(a1, t).area == pane_of(a0, f).area
    &&& if fp == tp {
        &&& parent_of(a1, f) == fp && parent_of(a1, t) == fp
        &&& is_container(a1, fp) && parent_of(a1, fp) == parent_of(a0, fp) && layout_of(a1, fp)
            == layout_of(a0, fp) && area_of(a1, fp) == area_of(a0, fp)
        &&& children_of(a1, fp) == children_of(a0, fp).update(
            first_at(children_of(a0, fp), f),
            t,
        ).update(first_at(children_of(a0, fp), t), f)
    } else {
        &&& parent_of(a1, f) == tp && parent_of(a1, t) == fp
        &&& is_container(a1, fp) && parent_of(a1, fp) == parent_of(a0, fp) && layout_of(a1, fp)
            == layout_of(a0, fp) && area_of(a1, fp) == area_of(a0, fp)
        &&& is_container(a1, tp) && parent_of(a1, tp) == parent_of(a0, tp) && layout_of(a1, tp)
            == layout_of(a0, tp) && area_of(a1, tp) == area_of(a0, tp)
        &&& children_of(a1, fp) == crate::edit::replace_first(children_of(a0, fp), f, t)
        &&& children_of(a1, tp) == crate::edit::replace_first(children_of(a0, tp), t, f)
    }
}

/// The first position of `x` in `s`.
pub open spec fn first_at(s: Seq<ViewId>, x: ViewId) -> int
    recommends
        s.contains(x),
{
    choose|i: int| 0 <= i < s.len() && s[i] == x
}

impl Tabs {
    /// The pane spatially adjacent to `id` in `direction`, if any: climbs
    /// to the nearest ancestor container whose axis admits movement in
    /// `direction`, steps one sibling over, then descends picking the child
    /// nearest the focused pane's cross-axis coordinate.  The climb
    /// continues past a failed sibling step, a documented approximation for
    /// irregular layouts.
    pub fn find_split_in_direction(&self, tab: TabId, id: ViewId, direction: Direction) -> (r:
        Option<ViewId>)
        requires
            self.wf(),
            self.tmap().dom().contains(tab),
            self.mset_of(tab).contains(id),
        ensures
            r == search_target(self.arena(), self.tmap()[tab], id, direction),
            r matches Some(v) ==> self.mset_of(tab).contains(v) && is_pane(self.arena(), v),
        decreases crate::chains::depth_of(
            self.arena(),
            self.tmap()[tab].root,
            id,
        ),
    {
        let ghost a = self.arena();
        let ghost t = self.tmap()[tab];
        proof {
            assert(tree_wf(a, t));
            assert(a.dom().contains(id)) by {
                assert(t.mset().contains(id));
            }
        }
        let parent = self.nodes.get(id).unwrap().parent;
        if key_eq(parent, id) {
            proof {
                assert(search_target(a, t, id, direction) is None);
            }
            return None;
        }
        proof {
            assert(id != t.root) by {
                if id == t.root {
                    assert(parent_of(a, t.root) == t.root);
                }
            }
            assert(t.mset().contains(parent) && is_container(a, parent));
            assert(a.dom().contains(parent));
            crate::chains::lemma_depth_parent(a, t.root, id);
        }
        let pnode_ref = self.nodes.get(parent).unwrap();
        let (playout, pchildren) = match &pnode_ref.content {
            Content::Container(c) => (c.layout, crate::node::copy_ids(&c.children)),
            Content::Pane(_) => {
                proof {
                    assert(is_container(a, parent));
                }
                (Layout::Vertical, Vec::new())
            },
        };
        let climb = match (direction, playout) {
            (Direction::Up, Layout::Vertical) => true,
            (Direction::Down, Layout::Vertical) => true,
            (Direction::Left, Layout::Horizontal) => true,
            (Direction::Right, Layout::Horizontal) => true,
            _ => false,
        };
        proof {
            assert(playout == layout_of(a, parent));
            assert(climb == climbs(direction, playout));
            assert(pchildren@ == children_of(a, parent));
            assert(children_wf(a, t, parent));
        }
        if climb {
            // movement is impossible inside this container: search closer
            // to the root
            let r = self.find_split_in_direction(tab, parent, direction);
            proof {
                assert(search_target(a, t, id, direction) == search_target(
                    a,
                    t,
                    parent,
                    direction,
                ));
            }
            r
        } else {
            match self.find_child(tab, id, &pchildren, direction) {
                Some(found) => {
                    proof {
                        assert(search_target(a, t, id, direction) == Some(found));
                    }
                    Some(found)
                },
                // a sibling subtree further out may still contain a
                // reachable pane
                None => {
                    let r = self.find_split_in_direction(tab, parent, direction);
                    proof {
                        assert(search_target(a, t, id, direction) == search_target(
                            a,
                            t,
                            parent,
                            direction,
                        ));
                    }
                    r
                },
            }
        }
    }

    /// Steps one sibling over from `id` in `children`, toward `direction`,
    /// then descends container siblings picking the child whose near edge
    /// is closest to the focused pane's cross-axis coordinate.
    fn find_child(&self, tab: TabId, id: ViewId, children: &Vec<ViewId>, direction: Direction)
        -> (r: Option<ViewId>)
        requires
            self.wf(),
            self.tmap().dom().contains(tab),
            children@.no_duplicates(),
            forall|j: int|
                0 <= j < children@.len() ==> self.mset_of(tab).contains(#[trigger] children@[j])
                    && children@[j] != self.tmap()[tab].root,
        ensures
            r == child_target(self.arena(), self.tmap()[tab], children@, id, direction),
            r matches Some(v) ==> self.mset_of(tab).contains(v) && is_pane(self.arena(), v),
    {
        let ghost a = self.arena();
        let ghost t = self.tmap()[tab];
        proof {
            assert(tree_wf(a, t));
        }
        let pos = match crate::edit::position_of(children, id) {
            Some(p) => p,
            None => {
                proof {
                    assert(!children@.contains(id));
                }
                return None;
            },
        };
        proof {
            let i = choose|i: int| 0 <= i < children@.len() && children@[i] == id;
            assert(children@[pos as int] == id);
            assert(i == pos);
        }
        let stepped: ViewId = match direction {
            Direction::Up | Direction::Left => {
                if pos == 0 {
                    proof {
                        assert(sibling_step(children@, id, direction) is None);
                    }
                    return None;
                }
                children[pos - 1]
            },
            Direction::Down | Direction::Right => {
                if pos >= children.len() - 1 {
                    proof {
                        assert(sibling_step(children@, id, direction) is None);
                    }
                    return None;
                }
                children[pos + 1]
            },
        };
        let ghost root = t.root;
        proof {
            assert(sibling_step(children@, id, direction) == Some(stepped));
            assert(t.mset().contains(stepped));
        }
        // the reference coordinate comes from the currently focused pane
        let focus = self.trees.get(tab).unwrap().focus;
        proof {
            assert(t.mset().contains(t.focus));
            assert(a.dom().contains(focus));
        }
        let fnode_ref = self.nodes.get(focus).unwrap();
        let (current_x, current_y) = match &fnode_ref.content {
            Content::Pane(v) => (v.area.left(), v.area.top()),
            Content::Container(_) => {
                proof {
                    assert(!is_pane(a, t.focus));
                }
                return None;
            },
        };
        proof {
            assert(is_pane(a, t.focus));
            assert(current_x == pane_of(a, t.focus).area.x);
            assert(current_y == pane_of(a, t.focus).area.y);
        }
        let mut child_id = stepped;
        let ghost mut visited: Set<ViewId> = Set::empty();
        let ghost mut fcur: nat = t.mset().len();
        proof {
            assert(t.mset().finite()) by {
                assert forall|x: ViewId| t.mset().contains(x) implies a.dom().contains(x) by {}
                vstd::set_lib::lemma_set_subset_finite(a.dom(), t.mset());
            }
        }
        loop
            invariant_except_break
                self.wf(),
                self.tmap().dom().contains(tab),
                a == self.arena(),
                t == self.tmap()[tab],
                root == t.root,
                t.mset().finite(),
                t.mset().contains(child_id),
                child_id != root,
                has_chain(a, root, child_id),
                visited.finite(),
                visited.subset_of(t.mset()),
                forall|v: ViewId|
                    #[trigger] visited.contains(v) ==> crate::chains::depth_of(a, root, v)
                        < crate::chains::depth_of(a, root, child_id),
                fcur + crate::chains::depth_of(a, root, child_id) >= t.mset().len(),
                descend_target(a, stepped, current_x, current_y, t.mset().len())
                    == descend_target(a, child_id, current_x, current_y, fcur),
            ensures
                t.mset().contains(child_id),
                is_pane(a, child_id),
                descend_target(a, stepped, current_x, current_y, t.mset().len()) == Some(
                    child_id,
                ),
            decreases t.mset().len() - visited.len(),
        {
            proof {
                assert(a.dom().contains(child_id));
            }
            let cnode_ref = self.nodes.get(child_id).unwrap();
            let cont = match &cnode_ref.content {
                Content::Pane(_) => {
                    proof {
                        assert(descend_target(a, child_id, current_x, current_y, fcur) == Some(
                            child_id,
                        ));
                    }
                    break ;
                },
                Content::Container(c) => c,
            };
            let ghost cid = child_id;
            proof {
                assert(is_container(a, cid));
                assert(children_of(a, cid).len() >= 1);
                crate::tree::lemma_depth_bound(a, t, cid);
                assert(fcur >= 1);
            }
            if cont.children.len() == 0 {
                proof {
                    assert(descend_target(a, child_id, current_x, current_y, fcur) is None);
                }
                return None;
            }
            // pick the child whose near edge is closest to the reference
            let pick_x = match (direction, cont.layout) {
                (_, Layout::Vertical) => true,
                (_, Layout::Horizontal) => false,
            };
            proof {
                assert(pick_x == (layout_of(a, cid) is Vertical));
            }
            let refc: u16 = if pick_x {
                current_x
            } else {
                current_y
            };
            let mut best: usize = 0;
            let mut best_dist: u32 = u32::MAX;
            let mut j: usize = 0;
            while j < cont.children.len()
                invariant
                    self.wf(),
                    a == self.arena(),
                    t == self.tmap()[tab],
                    j <= cont.children@.len(),
                    cont.children@.len() >= 1,
                    j > 0 ==> best < j,
                    j == 0 ==> best == 0 && best_dist == u32::MAX,
                    forall|x: ViewId| t.mset().contains(x) ==> a.dom().contains(x),
                    children_wf(a, t, cid),
                    cont.children@ == children_of(a, cid),
                    j > 0 ==> best_dist == edge_dist(
                        a,
                        children_of(a, cid)[best as int],
                        pick_x,
                        refc,
                    ),
                    forall|k: int|
                        0 <= k < j ==> edge_dist(a, #[trigger] children_of(a, cid)[k], pick_x, refc)
                            >= best_dist,
                    forall|k: int|
                        0 <= k < best ==> edge_dist(a, #[trigger] children_of(a, cid)[k], pick_x, refc)
                            > best_dist,
                decreases cont.children@.len() - j,
            {
                proof {
                    assert(t.mset().contains(children_of(a, cid)[j as int]));
                    assert(a.dom().contains(children_of(a, cid)[j as int]));
                }
                let cj = cont.children[j];
                let cjnode = self.nodes.get(cj).unwrap();
                let edge: u16 = match &cjnode.content {
                    Content::Pane(v) => {
                        if pick_x {
                            v.area.left()
                        } else {
                            v.area.top()
                        }
                    },
                    Content::Container(cc) => {
                        if pick_x {
                            cc.area.left()
                        } else {
                            cc.area.top()
                        }
                    },
                };
                proof {
                    assert(edge == if pick_x {
                        area_of(a, children_of(a, cid)[j as int]).x
                    } else {
                        area_of(a, children_of(a, cid)[j as int]).y
                    });
                }
                let dist: u32 = if refc >= edge {
                    refc as u32 - edge as u32
                } else {
                    edge as u32 - refc as u32
                };
                proof {
                    assert(dist == edge_dist(a, children_of(a, cid)[j as int], pick_x, refc));
                }
                if dist < best_dist {
                    best = j;
                    best_dist = dist;
                }
                j = j + 1;
            }
            let next = cont.children[best];
            proof {
                let ch = children_of(a, cid);
                // the loop found the first closest child, which is what the
                // descent's spec picks
                assert(best_child_at(a, ch, pick_x, refc) == best as int) by {
                    assert(0 <= best < ch.len() && (forall|k: int|
                        0 <= k < ch.len() ==> edge_dist(a, #[trigger] ch[best as int], pick_x, refc)
                            <= edge_dist(a, ch[k], pick_x, refc)) && (forall|k: int|
                        0 <= k < best ==> edge_dist(a, #[trigger] ch[k], pick_x, refc) > edge_dist(
                            a,
                            ch[best as int],
                            pick_x,
                            refc,
                        )));
                    let b = best_child_at(a, ch, pick_x, refc);
                    if b != best {
                        if b < best {
                            assert(edge_dist(a, ch[b], pick_x, refc) > edge_dist(
                                a,
                                ch[best as int],
                                pick_x,
                                refc,
                            ));
                            assert(edge_dist(a, ch[b], pick_x, refc) <= edge_dist(
                                a,
                                ch[best as int],
                                pick_x,
                                refc,
                            ));
                        } else {
                            assert(edge_dist(a, ch[best as int], pick_x, refc) > edge_dist(
                                a,
                                ch[b],
                                pick_x,
                                refc,
                            ));
                            assert(edge_dist(a, ch[best as int], pick_x, refc) <= edge_dist(
                                a,
                                ch[b],
                                pick_x,
                                refc,
                            ));
                        }
                    }
                }
                assert(descend_target(a, cid, current_x, current_y, fcur) == descend_target(
                    a,
                    ch[best as int],
                    current_x,
                    current_y,
                    (fcur - 1) as nat,
                ));
                assert(children_wf(a, t, cid));
                assert(t.mset().contains(children_of(a, cid)[best as int]));
                assert(parent_of(a, children_of(a, cid)[best as int]) == cid);
                assert(children_of(a, cid)[best as int] != root);
                assert(a.dom().contains(next));
                crate::chains::lemma_depth_child(a, root, cid, next);
                let v1 = visited.insert(cid);
                assert(!visited.contains(cid));
                vstd::set_lib::lemma_len_subset(v1, t.mset());
                visited = v1;
                fcur = (fcur - 1) as nat;
            }
            child_id = next;
        }
        proof {
            assert(is_pane(a, child_id));
            assert(child_target(a, t, children@, id, direction) == Some(child_id));
        }
        Some(child_id)
    }
}

/// One swap, then the same swap again, restores every node: parents,
/// child-list positions and rectangles all return to their starting
/// values.  This is the involution law for swapping panes.
pub proof fn lemma_swap_twice(
    a0: Map<ViewId, Node>,
    a1: Map<ViewId, Node>,
    a2: Map<ViewId, Node>,
    f: ViewId,
    t: ViewId,
)
    requires
        swap_spec(a0, a1, f, t),
        swap_spec(a1, a2, f, t),
        f != t,
        is_pane(a0, f),
        is_pane(a0, t),
        a0.dom().contains(parent_of(a0, f)),
        a0.dom().contains(parent_of(a0, t)),
        parent_of(a0, f) != f && parent_of(a0, f) != t,
        parent_of(a0, t) != f && parent_of(a0, t) != t,
        is_container(a0, parent_of(a0, f)),
        is_container(a0, parent_of(a0, t)),
        children_of(a0, parent_of(a0, f)).no_duplicates(),
        children_of(a0, parent_of(a0, t)).no_duplicates(),
        children_of(a0, parent_of(a0, f)).contains(f),
        children_of(a0, parent_of(a0, t)).contains(t),
        parent_of(a0, f) == parent_of(a0, t) || (!children_of(a0, parent_of(a0, f)).contains(t)
            && !children_of(a0, parent_of(a0, t)).contains(f)),
    ensures
        a2.dom() == a0.dom(),
        forall|m: ViewId| a0.dom().contains(m) ==> node_eq(a2[m], #[trigger] a0[m]),
{
    let fp = parent_of(a0, f);
    let tp = parent_of(a0, t);
    if fp == tp {
        let ch0 = children_of(a0, fp);
        let i = first_at(ch0, f);
        let j = first_at(ch0, t);
        assert(0 <= i < ch0.len() && ch0[i] == f);
        assert(0 <= j < ch0.len() && ch0[j] == t);
        assert(i != j);
        let ch1 = ch0.update(i, t).update(j, f);
        assert(children_of(a1, fp) == ch1);
        assert(parent_of(a1, f) == fp && parent_of(a1, t) == fp);
        // in the swapped list, the unique occurrences have traded places
        assert(first_at(ch1, f) == j) by {
            assert(ch1[j] == f);
            let k = first_at(ch1, f);
            assert(0 <= k < ch1.len() && ch1[k] == f);
            if k != j {
                if k == i {
                } else {
                    assert(ch1[k] == ch0[k]);
                    assert(ch0[k] == ch0[i]);
                }
            }
        }
        assert(first_at(ch1, t) == i) by {
            assert(ch1[i] == t);
            let k = first_at(ch1, t);
            assert(0 <= k < ch1.len() && ch1[k] == t);
            if k != i {
                if k == j {
                } else {
                    assert(ch1[k] == ch0[k]);
                    assert(ch0[k] == ch0[j]);
                }
            }
        }
        assert(children_of(a2, fp) == ch1.update(j, t).update(i, f));
        assert(children_of(a2, fp) =~= ch0);
        assert forall|m: ViewId| a0.dom().contains(m) implies node_eq(
            a2[m],
            #[trigger] a0[m],
        ) by {
            if m == f || m == t {
                assert(is_pane(a2, m) && is_pane(a0, m));
            } else if m == fp {
                assert(is_container(a2, fp) && is_container(a0, fp));
                assert(children_of(a2, fp) == children_of(a0, fp));
                assert(area_of(a2, fp) == area_of(a0, fp));
                assert(layout_of(a2, fp) == layout_of(a0, fp));
                assert(parent_of(a2, fp) == parent_of(a0, fp));
            } else {
                assert(a1[m] == a0[m]);
                assert(a2[m] == a1[m]);
            }
        }
    } else {
        let chf0 = children_of(a0, fp);
        let cht0 = children_of(a0, tp);
        let i = first_at(chf0, f);
        let j = first_at(cht0, t);
        assert(0 <= i < chf0.len() && chf0[i] == f);
        assert(0 <= j < cht0.len() && cht0[j] == t);
        let chf1 = crate::edit::replace_first(chf0, f, t);
        let cht1 = crate::edit::replace_first(cht0, t, f);
        assert(chf1 == chf0.update(i, t));
        assert(cht1 == cht0.update(j, f));
        assert(children_of(a1, fp) == chf1 && children_of(a1, tp) == cht1);
        assert(parent_of(a1, f) == tp && parent_of(a1, t) == fp);
        // the second swap sees the parents exchanged
        assert(children_of(a2, tp) == crate::edit::replace_first(cht1, f, t));
        assert(children_of(a2, fp) == crate::edit::replace_first(chf1, t, f));
        assert(crate::edit::replace_first(cht1, f, t) =~= cht0) by {
            assert(cht1[j] == f);
            let k = choose|k: int| 0 <= k < cht1.len() && cht1[k] == f;
            assert(k == j) by {
                if k != j {
                    assert(cht1[k] == cht0[k]);
                    assert(cht0.contains(f));
                }
            }
        }
        assert(crate::edit::replace_first(chf1, t, f) =~= chf0) by {
            assert(chf1[i] == t);
            let k = choose|k: int| 0 <= k < chf1.len() && chf1[k] == t;
            assert(k == i) by {
                if k != i {
                    assert(chf1[k] == chf0[k]);
                    assert(chf0.contains(t));
                }
            }
        }
        assert forall|m: ViewId| a0.dom().contains(m) implies node_eq(
            a2[m],
            #[trigger] a0[m],
        ) by {
            if m == f {
                assert(parent_of(a2, f) == fp);
                assert(is_pane(a2, m) && is_pane(a0, m));
            } else if m == t {
                assert(parent_of(a2, t) == tp);
                assert(is_pane(a2, m) && is_pane(a0, m));
            } else if m == fp {
                assert(is_container(a2, fp) && is_container(a0, fp));
                assert(children_of(a2, fp) == children_of(a0, fp));
            } else if m == tp {
                assert(is_container(a2, tp) && is_container(a0, tp));
                assert(children_of(a2, tp) == children_of(a0, tp));
            } else {
                assert(a1[m] == a0[m]);
                assert(a2[m] == a1[m]);
            }
        }
    }
}

/// Well-formedness survives a swap: member panes trade places and
/// rectangles, and across containers they trade parents too.
proof fn lemma_swap_wf(
    a0: Map<ViewId, Node>,
    a1: Map<ViewId, Node>,
    ot: Tree,
    f: ViewId,
    t: ViewId,
)
    requires
        tree_wf(a0, ot),
        ot.mset().contains(f),
        ot.mset().contains(t),
        is_pane(a0, f),
        is_pane(a0, t),
        f != t,
        swap_spec(a0, a1, f, t),
    ensures
        tree_wf(a1, ot),
{
    let r = ot.root;
    let fp = parent_of(a0, f);
    let tp = parent_of(a0, t);
    assert(f != r && t != r);
    assert(ot.mset().contains(fp) && is_container(a0, fp));
    assert(ot.mset().contains(tp) && is_container(a0, tp));
    assert(children_of(a0, fp).contains(f));
    assert(children_of(a0, tp).contains(t));
    assert(children_wf(a0, ot, fp));
    assert(children_wf(a0, ot, tp));
    assert(fp != f && fp != t && tp != f && tp != t);
    let chf0 = children_of(a0, fp);
    let cht0 = children_of(a0, tp);
    // the new child lists hold the same members, still without duplicates
    assert(children_of(a1, fp).len() == chf0.len());
    if fp == tp {
        let i = first_at(chf0, f);
        let j = first_at(chf0, t);
        assert(0 <= i < chf0.len() && chf0[i] == f);
        assert(0 <= j < chf0.len() && chf0[j] == t);
        assert(i != j);
        let ch1 = children_of(a1, fp);
        assert(ch1 == chf0.update(i, t).update(j, f));
        assert forall|k: int| 0 <= k < ch1.len() implies (#[trigger] ch1[k] == chf0[k] || (k
            == i && ch1[k] == t) || (k == j && ch1[k] == f)) by {}
        assert(ch1.no_duplicates()) by {
            assert forall|x: int, y: int| 0 <= x < ch1.len() && 0 <= y < ch1.len() && x != y
                implies ch1[x] != ch1[y] by {
                let vx = if x == i {
                    chf0[j]
                } else if x == j {
                    chf0[i]
                } else {
                    chf0[x]
                };
                let vy = if y == i {
                    chf0[j]
                } else if y == j {
                    chf0[i]
                } else {
                    chf0[y]
                };
                assert(ch1[x] == vx && ch1[y] == vy);
            }
        }
        assert forall|x: ViewId| ch1.contains(x) implies chf0.contains(x) by {
            let k = choose|k: int| 0 <= k < ch1.len() && ch1[k] == x;
            if k == i {
                assert(chf0[j] == x);
            } else if k == j {
                assert(chf0[i] == x);
            } else {
                assert(chf0[k] == x);
            }
        }
        assert forall|x: ViewId| chf0.contains(x) implies ch1.contains(x) by {
            let k = choose|k: int| 0 <= k < chf0.len() && chf0[k] == x;
            if k == i {
                assert(ch1[j] == x);
            } else if k == j {
                assert(ch1[i] == x);
            } else {
                assert(ch1[k] == x);
            }
        }
    } else {
        let i = first_at(chf0, f);
        let j = first_at(cht0, t);
        assert(0 <= i < chf0.len() && chf0[i] == f);
        assert(0 <= j < cht0.len() && cht0[j] == t);
        assert(children_of(a1, fp) == chf0.update(i, t));
        assert(children_of(a1, tp) == cht0.update(j, f));
        assert(!chf0.contains(t)) by {
            if chf0.contains(t) {
                let k = choose|k: int| 0 <= k < chf0.len() && chf0[k] == t;
                assert(parent_of(a0, chf0[k]) == fp);
            }
        }
        assert(!cht0.contains(f)) by {
            if cht0.contains(f) {
                let k = choose|k: int| 0 <= k < cht0.len() && cht0[k] == f;
                assert(parent_of(a0, cht0[k]) == tp);
            }
        }
    }
    // every member's node keeps its kind; only the four named nodes change
    assert forall|m: ViewId| #[trigger] ot.mset().contains(m) implies a1.dom().contains(m) by {
        assert(a0.dom().contains(m));
    }
    assert(is_container(a1, r) && parent_of(a1, r) == r) by {
        if r != fp && r != tp {
            assert(a1[r] == a0[r]);
        }
    }
    // parent links
    assert forall|m: ViewId| #[trigger] ot.mset().contains(m) && m != ot.root implies {
        &&& ot.mset().contains(parent_of(a1, m))
        &&& is_container(a1, parent_of(a1, m))
        &&& children_of(a1, parent_of(a1, m)).contains(m)
    } by {
        let w1 = parent_of(a1, m);
        if m == f {
            assert(w1 == tp || (fp == tp && w1 == fp));
            assert(children_of(a1, w1).contains(f)) by {
                if fp == tp {
                    let j = first_at(children_of(a0, fp), t);
                    assert(children_of(a1, fp)[j] == f);
                } else {
                    let j = first_at(children_of(a0, tp), t);
                    assert(children_of(a1, tp)[j] == f);
                }
            }
            assert(is_container(a1, w1));
        } else if m == t {
            assert(w1 == fp);
            assert(children_of(a1, fp).contains(t)) by {
                let i = first_at(children_of(a0, fp), f);
                assert(children_of(a1, fp)[i] == t);
            }
            assert(is_container(a1, fp));
        } else {
            assert(parent_of(a1, m) == parent_of(a0, m)) by {
                if m != fp && m != tp {
                    assert(a1[m] == a0[m]);
                }
            }
            let w = parent_of(a0, m);
            assert(ot.mset().contains(w) && is_container(a0, w));
            assert(is_container(a1, w)) by {
                if w != fp && w != tp {
                    assert(a1[w] == a0[w]);
                }
            }
            assert(children_of(a1, w).contains(m)) by {
                if w == fp || w == tp {
                    if fp == tp {
                        let ch1 = children_of(a1, fp);
                        let k = choose|k: int|
                            0 <= k < children_of(a0, w).len() && children_of(a0, w)[k] == m;
                        let i = first_at(children_of(a0, fp), f);
                        let j = first_at(children_of(a0, fp), t);
                        assert(k != i && k != j);
                        assert(ch1[k] == m);
                    } else if w == fp {
                        let k = choose|k: int|
                            0 <= k < children_of(a0, fp).len() && children_of(a0, fp)[k] == m;
                        let i = first_at(children_of(a0, fp), f);
                        assert(k != i);
                        assert(children_of(a1, fp)[k] == m);
                    } else {
                        let k = choose|k: int|
                            0 <= k < children_of(a0, tp).len() && children_of(a0, tp)[k] == m;
                        let j = first_at(children_of(a0, tp), t);
                        assert(k != j);
                        assert(children_of(a1, tp)[k] == m);
                    }
                } else {
                    assert(a1[w] == a0[w]);
                }
            }
        }
    }
    // child lists
    assert forall|m: ViewId| #[trigger] ot.mset().contains(m) && is_container(a1, m)
        implies children_wf(a1, ot, m) by {
        if m == fp || m == tp {
            assert forall|k: int| 0 <= k < children_of(a1, m).len() implies {
                &&& ot.mset().contains(#[trigger] children_of(a1, m)[k])
                &&& children_of(a1, m)[k] != ot.root
                &&& parent_of(a1, children_of(a1, m)[k]) == m
            } by {
                let y = children_of(a1, m)[k];
                if y == f {
                    assert(parent_of(a1, f) == (if fp == tp {
                        fp
                    } else {
                        tp
                    }));
                    if fp != tp {
                        assert(m == tp) by {
                            if m == fp {
                                assert(children_of(a1, fp) == children_of(a0, fp).update(
                                    first_at(children_of(a0, fp), f),
                                    t,
                                ));
                                if k == first_at(children_of(a0, fp), f) {
                                } else {
                                    assert(children_of(a0, fp)[k] == f);
                                    assert(first_at(children_of(a0, fp), f) == k);
                                }
                            }
                        }
                    }
                } else if y == t {
                    assert(parent_of(a1, t) == fp);
                    assert(m == fp) by {
                        if fp != tp && m == tp {
                            assert(children_of(a1, tp) == children_of(a0, tp).update(
                                first_at(children_of(a0, tp), t),
                                f,
                            ));
                            if k == first_at(children_of(a0, tp), t) {
                            } else {
                                assert(children_of(a0, tp)[k] == t);
                                assert(first_at(children_of(a0, tp), t) == k);
                            }
                        }
                    }
                } else {
                    assert(children_of(a0, m).contains(y) || children_of(a1, m)[k]
                        == children_of(a0, m)[k]) by {}
                    assert(children_of(a0, m)[k] == y || y == f || y == t) by {
                        if fp == tp {
                            let i = first_at(children_of(a0, fp), f);
                            let j = first_at(children_of(a0, fp), t);
                            if k != i && k != j {
                                assert(children_of(a1, m)[k] == children_of(a0, m)[k]);
                            }
                        } else if m == fp {
                            let i = first_at(children_of(a0, fp), f);
                            if k != i {
                                assert(children_of(a1, m)[k] == children_of(a0, m)[k]);
                            }
                        } else {
                            let j = first_at(children_of(a0, tp), t);
                            if k != j {
                                assert(children_of(a1, m)[k] == children_of(a0, m)[k]);
                            }
                        }
                    }
                    assert(children_of(a0, m)[k] == y);
                    assert(ot.mset().contains(y) && y != ot.root && parent_of(a0, y) == m);
                    assert(parent_of(a1, y) == m) by {
                        if y != fp && y != tp {
                            assert(a1[y] == a0[y]);
                        }
                    }
                }
            }
            assert(children_of(a1, m).no_duplicates()) by {
                if fp == tp {
                } else if m == fp {
                    let ch1 = children_of(a1, fp);
                    let i = first_at(children_of(a0, fp), f);
                    assert forall|x: int, y: int|
                        0 <= x < ch1.len() && 0 <= y < ch1.len() && x != y implies ch1[x] != ch1[y] by {
                        if x == i {
                            assert(ch1[x] == t && ch1[y] == children_of(a0, fp)[y]);
                            if ch1[y] == t {
                                assert(children_of(a0, fp).contains(t));
                            }
                        } else if y == i {
                            assert(ch1[y] == t && ch1[x] == children_of(a0, fp)[x]);
                            if ch1[x] == t {
                                assert(children_of(a0, fp).contains(t));
                            }
                        } else {
                            assert(ch1[x] == children_of(a0, fp)[x]);
                            assert(ch1[y] == children_of(a0, fp)[y]);
                        }
                    }
                } else {
                    let ch1 = children_of(a1, tp);
                    let j = first_at(children_of(a0, tp), t);
                    assert forall|x: int, y: int|
                        0 <= x < ch1.len() && 0 <= y < ch1.len() && x != y implies ch1[x] != ch1[y] by {
                        if x == j {
                            assert(ch1[x] == f && ch1[y] == children_of(a0, tp)[y]);
                            if ch1[y] == f {
                                assert(children_of(a0, tp).contains(f));
                            }
                        } else if y == j {
                            assert(ch1[y] == f && ch1[x] == children_of(a0, tp)[x]);
                            if ch1[x] == f {
                                assert(children_of(a0, tp).contains(f));
                            }
                        } else {
                            assert(ch1[x] == children_of(a0, tp)[x]);
                            assert(ch1[y] == children_of(a0, tp)[y]);
                        }
                    }
                }
            }
        } else if m == f || m == t {
            assert(is_pane(a1, m));
        } else {
            assert(a1[m] == a0[m]);
            assert(is_container(a0, m));
            assert(children_wf(a0, ot, m));
            assert(children_of(a1, m) == children_of(a0, m));
            assert forall|k: int| 0 <= k < children_of(a1, m).len() implies {
                &&& ot.mset().contains(#[trigger] children_of(a1, m)[k])
                &&& children_of(a1, m)[k] != ot.root
                &&& parent_of(a1, children_of(a1, m)[k]) == m
            } by {
                let y = children_of(a0, m)[k];
                assert(ot.mset().contains(y) && y != ot.root && parent_of(a0, y) == m);
                assert(y != f && y != t) by {
                    if y == f {
                        assert(parent_of(a0, f) == m && m != fp);
                    }
                    if y == t {
                        assert(parent_of(a0, t) == m && m != tp);
                    }
                }
                assert(parent_of(a1, y) == m) by {
                    if y != fp && y != tp {
                        assert(a1[y] == a0[y]);
                    }
                }
            }
        }
    }
    // non-root containers stay nonempty
    assert forall|m: ViewId|
        #[trigger] ot.mset().contains(m) && is_container(a1, m) && m != ot.root
        implies children_of(a1, m).len() >= 1 by {
        if m == fp {
            assert(children_of(a1, fp).len() == children_of(a0, fp).len());
        } else if m == tp {
            assert(children_of(a1, tp).len() == children_of(a0, tp).len());
        } else if m != f && m != t {
            assert(a1[m] == a0[m]);
            assert(is_container(a0, m));
        }
    }
    // panes keep their identifiers
    assert forall|m: ViewId| #[trigger] ot.mset().contains(m) && is_pane(a1, m) implies pane_of(
        a1,
        m,
    ).id == m by {
        if m == f || m == t {
            assert(pane_of(a0, m).id == m);
        } else {
            assert(a1[m] == a0[m]) by {
                if m == fp || m == tp {
                    assert(is_container(a1, m));
                }
            }
            assert(is_pane(a0, m));
        }
    }
    // anchor chains: parents of containers never change, and the two panes
    // hang off containers that keep their chains
    assert forall|m: ViewId| #[trigger] ot.mset().contains(m) implies has_chain(a1, ot.root, m) by {
        if m == f || m == t {
            let w = if m == f {
                if fp == tp {
                    fp
                } else {
                    tp
                }
            } else {
                fp
            };
            assert(parent_of(a1, m) == w);
            let n = choose|n: nat| chain_to_root(a0, r, w, n);
            assert(chain_to_root(a0, r, w, n));
            crate::chains::lemma_hops_shape(a0, r, ot.mset(), w, n);
            assert forall|x: ViewId| #[trigger] crate::chains::chain_hops(a0, r, w, n).contains(
                x,
            ) implies {
                &&& a1.dom().contains(x)
                &&& parent_of(a1, x) == parent_of(a0, x)
            } by {
                assert(ot.mset().contains(x));
                assert(x == w || is_container(a0, x));
                assert(x != f && x != t) by {
                    if x == f || x == t {
                        assert(is_pane(a0, x));
                        if x != w {
                            assert(is_container(a0, x));
                        }
                        assert(x == w);
                        assert(is_container(a0, w));
                    }
                }
                assert(parent_of(a1, x) == parent_of(a0, x)) by {
                    if x != fp && x != tp {
                        assert(a1[x] == a0[x]);
                    }
                }
            }
            crate::chains::lemma_chain_frame(a0, a1, r, w, n);
            let k = choose|k: nat| chain_to_root(a1, r, w, k);
            crate::chains::lemma_chain_step(a1, r, m, k);
        } else {
            let n = choose|n: nat| chain_to_root(a0, r, m, n);
            assert(chain_to_root(a0, r, m, n));
            crate::chains::lemma_hops_shape(a0, r, ot.mset(), m, n);
            assert forall|x: ViewId| #[trigger] crate::chains::chain_hops(a0, r, m, n).contains(
                x,
            ) implies {
                &&& a1.dom().contains(x)
                &&& parent_of(a1, x) == parent_of(a0, x)
            } by {
                assert(ot.mset().contains(x));
                assert(x == m || is_container(a0, x));
                assert(x != f && x != t) by {
                    if (x == f || x == t) && x != m {
                        assert(is_container(a0, x) && is_pane(a0, x));
                    }
                }
                assert(parent_of(a1, x) == parent_of(a0, x)) by {
                    if x != fp && x != tp {
                        assert(a1[x] == a0[x]);
                    }
                }
            }
            crate::chains::lemma_chain_frame(a0, a1, r, m, n);
        }
    }
    // focus
    assert(children_of(a1, r).len() != 0) by {
        assert(children_of(a0, r).len() != 0) by {
            crate::tabs::lemma_nonroot_member_root_nonempty(a0, ot, f);
        }
        if r == fp {
            assert(children_of(a1, fp).len() == children_of(a0, fp).len());
        } else if r == tp {
            assert(children_of(a1, tp).len() == children_of(a0, tp).len());
        } else {
            assert(a1[r] == a0[r]);
        }
    }
    assert(is_pane(a1, ot.focus)) by {
        assert(is_pane(a0, ot.focus));
        let m = ot.focus;
        if m != f && m != t {
            assert(a1[m] == a0[m]) by {
                if m == fp || m == tp {
                    assert(is_container(a0, m));
                }
            }
        }
    }
}

impl Tabs {
    /// Swaps the focused pane of workspace `tab` with the pane found in
    /// `direction`, exchanging their places in the tree and their
    /// rectangles, so traversal order and screen geometry are both kept;
    /// the focus identifier stays on the same pane.  Nothing changes when
    /// no pane lies in that direction.
    #[verifier::rlimit(100)]
    pub fn swap_split_in_direction(&mut self, tab: TabId, direction: Direction) -> (r: Option<
        (),
    >)
        requires
            old(self).wf(),
            old(self).tmap().dom().contains(tab),
        ensures
            final(self).wf(),
            r is None ==> *final(self) == *old(self),
            r is Some <==> (search_target(
                old(self).arena(),
                old(self).tmap()[tab],
                old(self).tmap()[tab].focus,
                direction,
            ) matches Some(t) && t != old(self).tmap()[tab].focus),
            search_target(
                old(self).arena(),
                old(self).tmap()[tab],
                old(self).tmap()[tab].focus,
                direction,
            ) matches Some(t) ==> (t != old(self).tmap()[tab].focus ==> {
                &&& final(self).tmap() == old(self).tmap()
                &&& final(self).active() == old(self).active()
                &&& old(self).mset_of(tab).contains(t)
                &&& is_pane(old(self).arena(), t)
                &&& swap_spec(
                    old(self).arena(),
                    final(self).arena(),
                    old(self).tmap()[tab].focus,
                    t,
                )
            }),
    {
        let ghost pre = *old(self);
        let ghost ot = old(self).tmap()[tab];
        let ghost a0 = pre.arena();
        let focus = self.trees.get(tab).unwrap().focus;
        proof {
            assert(ot.mset().contains(focus));
            assert(tree_wf(a0, ot));
        }
        let target = match self.find_split_in_direction(tab, focus, direction) {
            Some(v) => v,
            None => {
                return None;
            },
        };
        if key_eq(focus, target) {
            // the batch accessor refuses overlapping handles
            return None;
        }
        proof {
            assert(is_pane(a0, target));
            assert(is_pane(a0, focus)) by {
                assert(children_of(a0, ot.root).len() != 0) by {
                    if target == ot.root {
                        assert(is_container(a0, ot.root));
                    }
                    crate::tabs::lemma_nonroot_member_root_nonempty(a0, ot, target);
                }
            }
            assert(focus != ot.root && target != ot.root);
        }
        let fp = self.nodes.get(focus).unwrap().parent;
        let tp = self.nodes.get(target).unwrap().parent;
        proof {
            assert(fp == parent_of(a0, focus) && tp == parent_of(a0, target));
            assert(ot.mset().contains(fp) && is_container(a0, fp));
            assert(ot.mset().contains(tp) && is_container(a0, tp));
            assert(children_of(a0, fp).contains(focus));
            assert(children_of(a0, tp).contains(target));
            assert(children_wf(a0, ot, fp));
            assert(children_wf(a0, ot, tp));
            assert(fp != focus && fp != target && tp != focus && tp != target);
        }
        // read both panes before writing anything
        let fnode = self.nodes.get(focus).unwrap();
        let (farea, fdoc) = match &fnode.content {
            Content::Pane(v) => (v.area, v.doc),
            Content::Container(_) => {
                return None;
            },
        };
        let tnode = self.nodes.get(target).unwrap();
        let (tarea, tdoc) = match &tnode.content {
            Content::Pane(v) => (v.area, v.doc),
            Content::Container(_) => {
                return None;
            },
        };
        if key_eq(fp, tp) {
            // same container: swap list positions and rectangles
            let pnode = self.nodes.get(fp).unwrap();
            let pparent = pnode.parent;
            let (playout, parea, mut pchildren) = match &pnode.content {
                Content::Container(c) => (c.layout, c.area, crate::node::copy_ids(&c.children)),
                Content::Pane(_) => {
                    proof {
                        assert(is_container(a0, fp));
                    }
                    (Layout::Vertical, Rect::default(), Vec::new())
                },
            };
            let i = crate::edit::position_of(&pchildren, focus).unwrap();
            let j = crate::edit::position_of(&pchildren, target).unwrap();
            pchildren.set(i, target);
            pchildren.set(j, focus);
            self.nodes.set(
                fp,
                Node {
                    parent: pparent,
                    content: Content::Container(
                        Container { layout: playout, children: pchildren, area: parea },
                    ),
                },
            );
            self.nodes.set(
                focus,
                Node { parent: fp, content: Content::Pane(Pane { id: focus, doc: fdoc, area: tarea }) },
            );
            self.nodes.set(
                target,
                Node { parent: fp, content: Content::Pane(Pane { id: target, doc: tdoc, area: farea }) },
            );
            proof {
                let a1 = self.arena();
                assert(a1.dom() =~= a0.dom());
                assert(swap_spec(a0, a1, focus, target)) by {
                    let ch0 = children_of(a0, fp);
                    assert(ch0.no_duplicates());
                    assert(first_at(ch0, focus) == i) by {
                        assert(ch0[i as int] == focus);
                        let k = first_at(ch0, focus);
                        assert(ch0[k] == focus);
                    }
                    assert(first_at(ch0, target) == j) by {
                        assert(ch0[j as int] == target);
                        let k = first_at(ch0, target);
                        assert(ch0[k] == target);
                    }
                    assert(children_of(a1, fp) =~= ch0.update(i as int, target).update(
                        j as int,
                        focus,
                    ));
                    assert(pane_of(a0, focus).id == focus && pane_of(a0, target).id == target);
                    assert(pane_of(a0, focus).doc == fdoc && pane_of(a0, focus).area == farea);
                    assert(pane_of(a0, target).doc == tdoc && pane_of(a0, target).area == tarea);
                }
                lemma_swap_wf(a0, self.arena(), ot, focus, target);
                assert forall|tid: TabId|
                    #[trigger] self.tmap().dom().contains(tid) && tid != tab implies tree_wf(
                    self.arena(),
                    self.tmap()[tid],
                ) by {
                    let o = pre.tmap()[tid];
                    assert forall|m: ViewId| #[trigger] o.mset().contains(m)
                        implies self.arena().dom().contains(m) && self.arena()[m] == a0[m] by {
                        assert(m != focus && m != target && m != fp) by {
                            assert(ot.mset().contains(focus));
                            assert(ot.mset().contains(target));
                            assert(ot.mset().contains(fp));
                        }
                    }
                    lemma_tree_wf_preserved(a0, self.arena(), o);
                }
                assert(self.wf());
            }
            Some(())
        } else {
            // different containers: exchange entries, parents, rectangles
            let pnode = self.nodes.get(fp).unwrap();
            let fpparent = pnode.parent;
            let (fplayout, fparea, mut fpchildren) = match &pnode.content {
                Content::Container(c) => (c.layout, c.area, crate::node::copy_ids(&c.children)),
                Content::Pane(_) => {
                    proof {
                        assert(is_container(a0, fp));
                    }
                    (Layout::Vertical, Rect::default(), Vec::new())
                },
            };
            let i = crate::edit::position_of(&fpchildren, focus).unwrap();
            fpchildren.set(i, target);
            self.nodes.set(
                fp,
                Node {
                    parent: fpparent,
                    content: Content::Container(
                        Container { layout: fplayout, children: fpchildren, area: fparea },
                    ),
                },
            );
            let qnode = self.nodes.get(tp).unwrap();
            let tpparent = qnode.parent;
            let (tplayout, tparea, mut tpchildren) = match &qnode.content {
                Content::Container(c) => (c.layout, c.area, crate::node::copy_ids(&c.children)),
                Content::Pane(_) => {
                    proof {
                        assert(is_container(a0, tp));
                        assert(self.arena()[tp] == a0[tp]);
                    }
                    (Layout::Vertical, Rect::default(), Vec::new())
                },
            };
            let j = crate::edit::position_of(&tpchildren, target).unwrap();
            tpchildren.set(j, focus);
            self.nodes.set(
                tp,
                Node {
                    parent: tpparent,
                    content: Content::Container(
                        Container { layout: tplayout, children: tpchildren, area: tparea },
                    ),
                },
            );
            self.nodes.set(
                focus,
                Node { parent: tp, content: Content::Pane(Pane { id: focus, doc: fdoc, area: tarea }) },
            );
            self.nodes.set(
                target,
                Node { parent: fp, content: Content::Pane(Pane { id: target, doc: tdoc, area: farea }) },
            );
            proof {
                let a1 = self.arena();
                assert(a1.dom() =~= a0.dom());
                assert(swap_spec(a0, a1, focus, target)) by {
                    let chf0 = children_of(a0, fp);
                    let cht0 = children_of(a0, tp);
                    assert(chf0.no_duplicates() && cht0.no_duplicates());
                    assert(first_at(chf0, focus) == i) by {
                        assert(chf0[i as int] == focus);
                        let k = first_at(chf0, focus);
                        assert(chf0[k] == focus);
                    }
                    assert(first_at(cht0, target) == j) by {
                        assert(cht0[j as int] == target);
                        let k = first_at(cht0, target);
                        assert(cht0[k] == target);
                    }
                    assert(children_of(a1, fp) =~= crate::edit::replace_first(chf0, focus, target));
                    assert(children_of(a1, tp) =~= crate::edit::replace_first(cht0, target, focus));
                    assert(pane_of(a0, focus).id == focus && pane_of(a0, target).id == target);
                    assert(pane_of(a0, focus).doc == fdoc && pane_of(a0, focus).area == farea);
                    assert(pane_of(a0, target).doc == tdoc && pane_of(a0, target).area == tarea);
                }
                lemma_swap_wf(a0, self.arena(), ot, focus, target);
                assert forall|tid: TabId|
                    #[trigger] self.tmap().dom().contains(tid) && tid != tab implies tree_wf(
                    self.arena(),
                    self.tmap()[tid],
                ) by {
                    let o = pre.tmap()[tid];
                    assert forall|m: ViewId| #[trigger] o.mset().contains(m)
                        implies self.arena().dom().contains(m) && self.arena()[m] == a0[m] by {
                        assert(m != focus && m != target && m != fp && m != tp) by {
                            assert(ot.mset().contains(focus));
                            assert(ot.mset().contains(target));
                            assert(ot.mset().contains(fp));
                            assert(ot.mset().contains(tp));
                        }
                    }
                    lemma_tree_wf_preserved(a0, self.arena(), o);
                }
                assert(self.wf());
            }
            Some(())
        }
    }
}

} // verus!
