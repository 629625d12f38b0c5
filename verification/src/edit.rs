//! Structural mutation of a workspace tree: inserting, splitting and
//! removing panes.

use vstd::prelude::*;
use crate::chains::{
    chain_hops, chain_to_root, has_chain, lemma_chain_frame, lemma_chain_step, lemma_hops_shape,
};
use crate::geom::Rect;
use crate::ids::{TabId, ViewId, key_eq};
use crate::node::{
    Container, Content, Layout, Node, Pane, children_of, copy_ids, is_container, is_pane,
    layout_of, node_same_content, node_same_shape, pane_of, parent_of,
};
use crate::solve::tree_solved;
use crate::tabs::{MAX_NODES, Tabs};
use crate::tree::{Tree, children_wf, lemma_tree_wf_preserved, tree_linked, tree_wf};

verus! {

/// `s` with `x` inserted right after `anchor`, or alone if `s` is empty.
///
/// Meaningful when `anchor` occurs exactly once in `s`, which the tree
/// invariant guarantees for child lists.
pub open spec fn insert_after(s: Seq<ViewId>, anchor: ViewId, x: ViewId) -> Seq<ViewId>
    recommends
        s.len() == 0 || s.contains(anchor),
{
    if s.len() == 0 {
        seq![x]
    } else {
        let i = choose|i: int| 0 <= i < s.len() && s[i] == anchor;
        s.insert(i + 1, x)
    }
}

/// The first position of `x` in `v`, scanning left to right.
pub(crate) fn position_of(v: &Vec<ViewId>, x: ViewId) -> (r: Option<usize>)
    ensures
        r matches Some(i) ==> 0 <= i < v@.len() && v@[i as int] == x && (forall|j: int|
            0 <= j < i ==> v@[j] != x),
        r is None ==> !v@.contains(x),
    decreases v@.len(),
{
    let mut i: usize = 0;
    while i < v.len()
        invariant
            i <= v@.len(),
            forall|j: int| 0 <= j < i ==> v@[j] != x,
        decreases v@.len() - i,
    {
        if key_eq(v[i], x) {
            return Some(i);
        }
        i = i + 1;
    }
    proof {
        if v@.contains(x) {
            let j = choose|j: int| 0 <= j < v@.len() && v@[j] == x;
            assert(v@[j] != x);
        }
    }
    None
}

/// Well-formedness of one tree survives linking one fresh pane under a
/// member container, right after the anchor in its child list.
proof fn lemma_insert_wf(
    a0: Map<ViewId, Node>,
    a1: Map<ViewId, Node>,
    ot: Tree,
    nt: Tree,
    id: ViewId,
    p: ViewId,
    f: ViewId,
)
    requires
        tree_wf(a0, ot),
        !a0.dom().contains(id),
        f == ot.focus,
        p == parent_of(a0, f),
        nt.root == ot.root,
        nt.focus == id,
        nt.mset() == ot.mset().insert(id),
        a1.dom() == a0.dom().insert(id),
        forall|m: ViewId| a0.dom().contains(m) && m != p ==> a1[m] == #[trigger] a0[m],
        is_pane(a1, id),
        pane_of(a1, id).id == id,
        parent_of(a1, id) == p,
        is_container(a1, p),
        parent_of(a1, p) == parent_of(a0, p),
        layout_of(a1, p) == layout_of(a0, p),
        children_of(a1, p) == insert_after(children_of(a0, p), f, id),
    ensures
        tree_wf(a1, nt),
{
    let r = ot.root;
    let ch0 = children_of(a0, p);
    let ch1 = children_of(a1, p);
    assert(ot.mset().contains(f));
    assert(ot.mset().contains(p)) by {
        if f != r {
            assert(ot.mset().contains(parent_of(a0, f)));
        }
    }
    assert(is_container(a0, p)) by {
        if f != r {
        } else {
            assert(parent_of(a0, r) == r);
        }
    }
    assert(children_wf(a0, ot, p));
    // relate the new child list to the old one
    assert(id != p && id != r && id != f) by {
        assert(a0.dom().contains(p));
        assert(a0.dom().contains(r));
        assert(a0.dom().contains(f));
    }
    let pos = if ch0.len() == 0 {
        0int
    } else {
        (choose|i: int| 0 <= i < ch0.len() && ch0[i] == f) + 1
    };
    assert(ch1 == if ch0.len() == 0 {
        seq![id]
    } else {
        ch0.insert(pos, id)
    });
    if ch0.len() != 0 {
        assert(ch0.contains(f)) by {
            assert(f != r ==> children_of(a0, parent_of(a0, f)).contains(f));
            if f == r {
                assert(parent_of(a0, r) == r && p == r);
                assert(children_of(a0, r).len() == 0 || ot.focus != ot.root);
                if children_of(a0, r).len() == 0 {
                } else {
                    assert(is_pane(a0, ot.focus));
                    assert(is_container(a0, r));
                }
            }
        }
        assert(0 <= pos <= ch0.len());
    }
    assert forall|j: int| 0 <= j < ch1.len() implies {
        &&& ch1[j] == id || ch0.contains(#[trigger] ch1[j])
    } by {
        if ch0.len() != 0 {
            assert(ch1 == ch0.insert(pos, id));
            if j < pos {
                assert(ch1[j] == ch0[j]);
            } else if j > pos {
                assert(ch1[j] == ch0[j - 1]);
            }
        }
    }
    assert(ch1.contains(id)) by {
        if ch0.len() == 0 {
            assert(ch1[0] == id);
        } else {
            assert(ch1[pos] == id);
        }
    }
    assert forall|x: ViewId| ch0.contains(x) implies ch1.contains(x) by {
        let j = choose|j: int| 0 <= j < ch0.len() && ch0[j] == x;
        if j < pos {
            assert(ch1[j] == x);
        } else {
            assert(ch1[j + 1] == x);
        }
    }
    assert(ch1.no_duplicates()) by {
        assert(!ch0.contains(id)) by {
            if ch0.contains(id) {
                let j = choose|j: int| 0 <= j < ch0.len() && ch0[j] == id;
                assert(ot.mset().contains(ch0[j]));
                assert(a0.dom().contains(id));
            }
        }
        if ch0.len() != 0 {
            assert forall|i2: int, j2: int|
                0 <= i2 < ch1.len() && 0 <= j2 < ch1.len() && i2 != j2 implies ch1[i2]
                != ch1[j2] by {
                let u = if i2 < pos {
                    ch1[i2] == ch0[i2]
                } else if i2 == pos {
                    ch1[i2] == id
                } else {
                    ch1[i2] == ch0[i2 - 1]
                };
                let w = if j2 < pos {
                    ch1[j2] == ch0[j2]
                } else if j2 == pos {
                    ch1[j2] == id
                } else {
                    ch1[j2] == ch0[j2 - 1]
                };
                assert(u && w);
            }
        }
    }
    // membership closure
    assert forall|m: ViewId| #[trigger] nt.mset().contains(m) implies a1.dom().contains(m) by {
        if m != id {
            assert(ot.mset().contains(m));
        }
    }
    assert(is_container(a1, r)) by {
        if r != p {
            assert(a1[r] == a0[r]);
        }
    }
    assert(parent_of(a1, r) == r) by {
        if r != p {
            assert(a1[r] == a0[r]);
        }
    }
    // parent links
    assert forall|m: ViewId| #[trigger] nt.mset().contains(m) && m != nt.root implies {
        &&& nt.mset().contains(parent_of(a1, m))
        &&& is_container(a1, parent_of(a1, m))
        &&& children_of(a1, parent_of(a1, m)).contains(m)
    } by {
        if m == id {
            assert(parent_of(a1, id) == p);
            assert(ch1.contains(id));
        } else {
            assert(ot.mset().contains(m));
            assert(parent_of(a1, m) == parent_of(a0, m)) by {
                if m != p {
                    assert(a1[m] == a0[m]);
                }
            }
            let q = parent_of(a0, m);
            assert(ot.mset().contains(q));
            assert(is_container(a1, q)) by {
                if q != p {
                    assert(a1[q] == a0[q]);
                }
            }
            assert(children_of(a1, q).contains(m)) by {
                if q != p {
                    assert(a1[q] == a0[q]);
                    assert(children_of(a0, q).contains(m));
                } else {
                    assert(children_of(a0, p).contains(m));
                }
            }
        }
    }
    // child lists
    assert forall|m: ViewId| #[trigger] nt.mset().contains(m) && is_container(a1, m)
        implies children_wf(a1, nt, m) by {
        if m == p {
            assert forall|j: int| 0 <= j < ch1.len() implies {
                &&& nt.mset().contains(#[trigger] ch1[j])
                &&& ch1[j] != nt.root
                &&& parent_of(a1, ch1[j]) == p
            } by {
                if ch1[j] == id {
                } else {
                    assert(ch0.contains(ch1[j]));
                    let c = ch1[j];
                    assert(ot.mset().contains(c));
                    assert(c != r);
                    assert(parent_of(a0, c) == p);
                    assert(c != id);
                    assert(parent_of(a1, c) == p) by {
                        if c != p {
                            assert(a1[c] == a0[c]);
                        }
                    }
                }
            }
        } else if m == id {
            assert(is_pane(a1, id));
        } else {
            assert(ot.mset().contains(m));
            assert(a1[m] == a0[m]);
            assert(is_container(a0, m));
            assert(children_wf(a0, ot, m));
            assert(children_of(a1, m) == children_of(a0, m));
            assert forall|j: int| 0 <= j < children_of(a1, m).len() implies {
                &&& nt.mset().contains(#[trigger] children_of(a1, m)[j])
                &&& children_of(a1, m)[j] != nt.root
                &&& parent_of(a1, children_of(a1, m)[j]) == m
            } by {
                let c = children_of(a0, m)[j];
                assert(ot.mset().contains(c));
                assert(parent_of(a0, c) == m);
                assert(c != id);
                assert(parent_of(a1, c) == m) by {
                    if c != p {
                        assert(a1[c] == a0[c]);
                    }
                }
            }
        }
    }
    // non-root containers stay nonempty
    assert forall|m: ViewId|
        #[trigger] nt.mset().contains(m) && is_container(a1, m) && m != nt.root
        implies children_of(a1, m).len() >= 1 by {
        if m == p {
            assert(ch1.len() >= 1);
        } else if m != id {
            assert(a1[m] == a0[m]);
            assert(is_container(a0, m));
            assert(ot.mset().contains(m));
        }
    }
    // panes carry their own identifier
    assert forall|m: ViewId| #[trigger] nt.mset().contains(m) && is_pane(a1, m)
        implies pane_of(a1, m).id == m by {
        if m != id {
            assert(ot.mset().contains(m));
            assert(a1[m] == a0[m]) by {
                if m == p {
                    assert(is_container(a1, p));
                }
            }
            assert(is_pane(a0, m));
        }
    }
    // anchor chains
    assert forall|m: ViewId| #[trigger] nt.mset().contains(m) implies has_chain(a1, nt.root, m) by {
        if m == id {
            let n = choose|n: nat| chain_to_root(a0, r, p, n);
            assert(chain_to_root(a0, r, p, n));
            lemma_hops_shape(a0, r, ot.mset(), p, n);
            assert forall|x: ViewId| #[trigger] chain_hops(a0, r, p, n).contains(x) implies {
                &&& a1.dom().contains(x)
                &&& parent_of(a1, x) == parent_of(a0, x)
            } by {
                assert(ot.mset().contains(x));
                assert(parent_of(a1, x) == parent_of(a0, x)) by {
                    if x != p {
                        assert(a1[x] == a0[x]);
                    }
                }
            }
            lemma_chain_frame(a0, a1, r, p, n);
            lemma_chain_step(a1, r, id, n);
        } else {
            assert(ot.mset().contains(m));
            let n = choose|n: nat| chain_to_root(a0, r, m, n);
            assert(chain_to_root(a0, r, m, n));
            lemma_hops_shape(a0, r, ot.mset(), m, n);
            assert forall|x: ViewId| #[trigger] chain_hops(a0, r, m, n).contains(x) implies {
                &&& a1.dom().contains(x)
                &&& parent_of(a1, x) == parent_of(a0, x)
            } by {
                assert(ot.mset().contains(x));
                assert(parent_of(a1, x) == parent_of(a0, x)) by {
                    if x != p {
                        assert(a1[x] == a0[x]);
                    }
                }
            }
            lemma_chain_frame(a0, a1, r, m, n);
        }
    }
    // focus
    assert(nt.mset().contains(nt.focus));
    assert(children_of(a1, nt.root).len() != 0) by {
        if p == r {
            assert(ch1.len() >= 1);
        } else {
            assert(children_of(a1, r) == children_of(a0, r));
            assert(ot.mset().contains(p));
            crate::tabs::lemma_nonroot_member_root_nonempty(a0, ot, p);
        }
    }
    assert(is_pane(a1, nt.focus));
}

impl Tabs {
    /// Inserts `view` as a new pane right after the focused node inside the
    /// focused node's parent container of workspace `tab` (or as the sole
    /// child of an empty workspace), focuses it, and recomputes the layout
    /// of every workspace.
    pub fn insert(&mut self, tab: TabId, view: Pane) -> (id: ViewId)
        requires
            old(self).wf(),
            old(self).tmap().dom().contains(tab),
            old(self).arena().dom().len() < MAX_NODES,
        ensures
            final(self).wf(),
            !old(self).arena().dom().contains(id),
            final(self).arena().dom() == old(self).arena().dom().insert(id),
            final(self).arena().dom().len() == old(self).arena().dom().len() + 1,
            final(self).tmap().dom() == old(self).tmap().dom(),
            final(self).active() == old(self).active(),
            final(self).mset_of(tab) == old(self).mset_of(tab).insert(id),
            final(self).tmap()[tab].focus == id,
            final(self).tmap()[tab].root == old(self).tmap()[tab].root,
            final(self).tmap()[tab].area == old(self).tmap()[tab].area,
            is_pane(final(self).arena(), id),
            pane_of(final(self).arena(), id).id == id,
            pane_of(final(self).arena(), id).doc == view.doc,
            parent_of(final(self).arena(), id) == parent_of(
                old(self).arena(),
                old(self).tmap()[tab].focus,
            ),
            children_of(final(self).arena(), parent_of(old(self).arena(), old(self).tmap()[tab].focus))
                == insert_after(
                children_of(old(self).arena(), parent_of(old(self).arena(), old(self).tmap()[tab].focus)),
                old(self).tmap()[tab].focus,
                id,
            ),
            is_container(
                final(self).arena(),
                parent_of(old(self).arena(), old(self).tmap()[tab].focus),
            ),
            layout_of(final(self).arena(), parent_of(old(self).arena(), old(self).tmap()[tab].focus))
                == layout_of(
                old(self).arena(),
                parent_of(old(self).arena(), old(self).tmap()[tab].focus),
            ),
            parent_of(final(self).arena(), parent_of(old(self).arena(), old(self).tmap()[tab].focus))
                == parent_of(
                old(self).arena(),
                parent_of(old(self).arena(), old(self).tmap()[tab].focus),
            ),
            forall|m: ViewId|
                old(self).arena().dom().contains(m) && m != parent_of(
                    old(self).arena(),
                    old(self).tmap()[tab].focus,
                ) ==> node_same_shape(final(self).arena()[m], #[trigger] old(self).arena()[m]),
            tree_solved(final(self).arena(), final(self).tmap()[tab]),
            forall|tid: TabId|
                #[trigger] old(self).tmap().dom().contains(tid) && tid != tab ==> {
                    &&& final(self).tmap()[tid].root == old(self).tmap()[tid].root
                    &&& final(self).tmap()[tid].area == old(self).tmap()[tid].area
                    &&& final(self).tmap()[tid].mset() == old(self).tmap()[tid].mset()
                    &&& (children_of(old(self).arena(), old(self).tmap()[tid].root).len() != 0
                        ==> final(self).tmap()[tid].focus == old(self).tmap()[tid].focus
                            && tree_solved(final(self).arena(), final(self).tmap()[tid]))
                },
    {
        let ghost pre = *old(self);
        let ghost ot = old(self).tmap()[tab];
        let focus = self.trees.get(tab).unwrap().focus;
        proof {
            assert(ot.mset().contains(focus));
        }
        let parent = self.nodes.get(focus).unwrap().parent;
        let ghost p = parent;
        proof {
            assert(ot.mset().contains(p)) by {
                if focus != ot.root {
                    assert(ot.mset().contains(parent_of(pre.arena(), focus)));
                } else {
                    assert(parent_of(pre.arena(), ot.root) == ot.root);
                }
            }
            assert(is_container(pre.arena(), p)) by {
                if focus == ot.root {
                    assert(p == ot.root);
                }
            }
        }
        // create the pane node and teach it its own identifier
        let node = Node { parent, content: Content::Pane(view) };
        let id = self.nodes.insert(node);
        let fixed = Node {
            parent,
            content: Content::Pane(Pane { id, doc: view.doc, area: view.area }),
        };
        self.nodes.set(id, fixed);
        // link it into the parent's child list
        let pnode_ref = self.nodes.get(parent).unwrap();
        let pparent = pnode_ref.parent;
        let (playout, pchildren) = match &pnode_ref.content {
            Content::Container(c) => (c.layout, copy_ids(&c.children)),
            Content::Pane(_) => {
                proof {
                    assert(is_container(pre.arena(), p));
                }
                (Layout::Vertical, Vec::new())
            },
        };
        let mut pchildren = pchildren;
        let pos: usize = if pchildren.len() == 0 {
            0
        } else {
            let found = position_of(&pchildren, focus);
            proof {
                if found is None {
                    assert(children_of(pre.arena(), p).contains(focus)) by {
                        if focus != ot.root {
                        } else {
                            assert(children_of(pre.arena(), ot.root).len() == 0
                                || is_pane(pre.arena(), ot.focus));
                            assert(p == ot.root);
                            assert(is_container(pre.arena(), ot.root));
                        }
                    }
                }
            }
            found.unwrap() + 1
        };
        pchildren.insert(pos, id);
        self.nodes.set(
            parent,
            Node {
                parent: pparent,
                content: Content::Container(
                    Container { layout: playout, children: pchildren, area: Rect::default() },
                ),
            },
        );
        let ghost a1 = self.arena();
        proof {
            assert(children_of(a1, p) == insert_after(children_of(pre.arena(), p), focus, id)) by {
                let ch0 = children_of(pre.arena(), p);
                if ch0.len() == 0 {
                    assert(children_of(a1, p) =~= seq![id]);
                    assert(insert_after(ch0, focus, id) == seq![id]);
                } else {
                    let i = choose|i: int| 0 <= i < ch0.len() && ch0[i] == focus;
                    assert(children_wf(pre.arena(), ot, p));
                    assert(ch0.no_duplicates());
                    assert(pos == i + 1) by {
                        assert(ch0[pos - 1] == focus);
                        assert(ch0[i] == focus);
                    }
                    assert(children_of(a1, p) =~= ch0.insert(i + 1, id));
                }
            }
        }
        // register the pane with the tree and focus it
        let t_ref = self.trees.get(tab).unwrap();
        let mut t2 = t_ref.clone();
        t2.focus = id;
        t2.members.insert(&self.nodes, id);
        proof {
            assert forall|x: ViewId| ot.mset().contains(x) implies a1.dom().contains(x) by {
                assert(pre.arena().dom().contains(x));
            }
        }
        self.trees.set(tab, t2);
        proof {
            let nt = self.tmap()[tab];
            assert(nt.mset() =~= ot.mset().insert(id));
            assert(a1.dom() =~= pre.arena().dom().insert(id));
            lemma_insert_wf(pre.arena(), a1, ot, nt, id, p, focus);
            assert(self.tmap().dom() =~= pre.tmap().dom());
            assert forall|tid: TabId|
                #[trigger] self.tmap().dom().contains(tid) && tid != tab implies tree_wf(
                a1,
                self.tmap()[tid],
            ) by {
                let o = pre.tmap()[tid];
                assert(self.tmap()[tid] == o);
                assert forall|m: ViewId| #[trigger] o.mset().contains(m) implies a1.dom().contains(
                    m,
                ) && a1[m] == pre.arena()[m] by {
                    assert(pre.arena().dom().contains(m));
                    assert(m != id);
                    assert(m != p) by {
                        assert(ot.mset().contains(p));
                    }
                }
                lemma_tree_wf_preserved(pre.arena(), a1, o);
            }
            vstd::set_lib::lemma_len_subset(pre.arena().dom(), a1.dom());
            assert(a1.dom().len() == pre.arena().dom().len() + 1);
            assert(self.wf());
            assert(children_of(a1, self.tmap()[tab].root).len() != 0);
        }
        self.recalculate();
        proof {
            assert(final(self).mset_of(tab) =~= pre.mset_of(tab).insert(id));
            assert(self.arena().dom().len() == pre.arena().dom().len() + 1) by {
                vstd::set_lib::lemma_len_subset(pre.arena().dom(), a1.dom());
            }
            assert(node_same_shape(self.arena()[id], a1[id]));
            assert(self.tmap()[tab].focus == id);
            assert(children_of(self.arena(), p) == children_of(a1, p)) by {
                assert(a1.dom().contains(p));
                assert(node_same_shape(self.arena()[p], a1[p]));
                assert(is_container(a1, p));
            }
            assert(is_container(self.arena(), p) && layout_of(self.arena(), p) == layout_of(
                pre.arena(),
                p,
            ) && parent_of(self.arena(), p) == parent_of(pre.arena(), p)) by {
                assert(node_same_shape(self.arena()[p], a1[p]));
                assert(is_container(a1, p));
                assert(layout_of(a1, p) == layout_of(pre.arena(), p));
                assert(parent_of(a1, p) == parent_of(pre.arena(), p));
            }
            assert forall|m: ViewId|
                pre.arena().dom().contains(m) && m != p implies node_same_shape(
                self.arena()[m],
                #[trigger] pre.arena()[m],
            ) by {
                assert(m != id);
                assert(a1[m] == pre.arena()[m]);
                assert(a1.dom().contains(m));
                assert(node_same_shape(self.arena()[m], a1[m]));
            }
            assert forall|tid: TabId|
                #[trigger] pre.tmap().dom().contains(tid) && tid != tab implies {
                &&& self.tmap()[tid].root == pre.tmap()[tid].root
                &&& self.tmap()[tid].area == pre.tmap()[tid].area
                &&& self.tmap()[tid].mset() == pre.tmap()[tid].mset()
                &&& (children_of(pre.arena(), pre.tmap()[tid].root).len() != 0 ==> self.tmap()[
                    tid
                ].focus == pre.tmap()[tid].focus && tree_solved(self.arena(), self.tmap()[tid]))
            } by {
                let mid_t = pre.tmap()[tid];
                assert(children_of(a1, mid_t.root) == children_of(pre.arena(), mid_t.root)) by {
                    assert(mid_t.mset().contains(mid_t.root)) by {
                        assert(tree_wf(pre.arena(), mid_t));
                    }
                    assert(mid_t.root != id && mid_t.root != p) by {
                        assert(ot.mset().contains(p));
                    }
                    assert(a1[mid_t.root] == pre.arena()[mid_t.root]);
                }
            }
        }
        id
    }
}

/// `s` with its first occurrence of `anchor` replaced by `x`.
///
/// Meaningful when `anchor` occurs exactly once in `s`, which the tree
/// invariant guarantees for child lists.
pub open spec fn replace_first(s: Seq<ViewId>, anchor: ViewId, x: ViewId) -> Seq<ViewId>
    recommends
        s.contains(anchor),
{
    let i = choose|i: int| 0 <= i < s.len() && s[i] == anchor;
    s.update(i, x)
}

/// Well-formedness of one tree survives interposing a fresh container
/// between the focused node and its parent, holding the focused node and
/// one fresh pane.
proof fn lemma_split_wf(
    a0: Map<ViewId, Node>,
    a1: Map<ViewId, Node>,
    ot: Tree,
    nt: Tree,
    id: ViewId,
    s: ViewId,
    p: ViewId,
    f: ViewId,
)
    requires
        tree_wf(a0, ot),
        !a0.dom().contains(id),
        !a0.dom().contains(s),
        id != s,
        f == ot.focus,
        f != ot.root,
        p == parent_of(a0, f),
        nt.root == ot.root,
        nt.focus == id,
        nt.mset() == ot.mset().insert(id).insert(s),
        a1.dom() == a0.dom().insert(id).insert(s),
        forall|m: ViewId|
            a0.dom().contains(m) && m != p && m != f ==> a1[m] == #[trigger] a0[m],
        is_pane(a1, id),
        pane_of(a1, id).id == id,
        parent_of(a1, id) == s,
        is_container(a1, s),
        parent_of(a1, s) == p,
        children_of(a1, s) == seq![f, id],
        is_pane(a1, f) == is_pane(a0, f),
        is_container(a1, f) == is_container(a0, f),
        is_container(a1, f) ==> children_of(a1, f) == children_of(a0, f) && layout_of(a1, f)
            == layout_of(a0, f),
        is_pane(a1, f) ==> pane_of(a1, f).id == pane_of(a0, f).id,
        parent_of(a1, f) == s,
        is_container(a1, p),
        parent_of(a1, p) == parent_of(a0, p),
        layout_of(a1, p) == layout_of(a0, p),
        children_of(a1, p) == replace_first(children_of(a0, p), f, s),
    ensures
        tree_wf(a1, nt),
{
    let r = ot.root;
    let ch0 = children_of(a0, p);
    let ch1 = children_of(a1, p);
    assert(ot.mset().contains(f));
    assert(ot.mset().contains(p));
    assert(is_container(a0, p));
    assert(children_wf(a0, ot, p));
    assert(ch0.contains(f));
    assert(id != p && id != r && id != f && s != p && s != r && s != f) by {
        assert(a0.dom().contains(p));
        assert(a0.dom().contains(r));
        assert(a0.dom().contains(f));
    }
    let pos = choose|i: int| 0 <= i < ch0.len() && ch0[i] == f;
    assert(ch1 == ch0.update(pos, s));
    assert(ch1.len() == ch0.len());
    assert(ch1[pos] == s);
    assert(ch1.contains(s));
    assert(!ch0.contains(s)) by {
        if ch0.contains(s) {
            let j = choose|j: int| 0 <= j < ch0.len() && ch0[j] == s;
            assert(ot.mset().contains(ch0[j]));
            assert(a0.dom().contains(s));
        }
    }
    assert(!ch0.contains(id)) by {
        if ch0.contains(id) {
            let j = choose|j: int| 0 <= j < ch0.len() && ch0[j] == id;
            assert(ot.mset().contains(ch0[j]));
            assert(a0.dom().contains(id));
        }
    }
    assert forall|j: int| 0 <= j < ch1.len() && j != pos implies #[trigger] ch1[j] == ch0[j] by {
    }
    assert(ch1.no_duplicates()) by {
        assert forall|i2: int, j2: int|
            0 <= i2 < ch1.len() && 0 <= j2 < ch1.len() && i2 != j2 implies ch1[i2]
            != ch1[j2] by {
            if i2 == pos {
                assert(ch1[j2] == ch0[j2]);
                if ch0[j2] == s {
                    assert(ch0.contains(s));
                }
            } else if j2 == pos {
                assert(ch1[i2] == ch0[i2]);
                if ch0[i2] == s {
                    assert(ch0.contains(s));
                }
            } else {
                assert(ch1[i2] == ch0[i2] && ch1[j2] == ch0[j2]);
            }
        }
    }
    // membership closure
    assert forall|m: ViewId| #[trigger] nt.mset().contains(m) implies a1.dom().contains(m) by {
        if m != id && m != s {
            assert(ot.mset().contains(m));
        }
    }
    assert(is_container(a1, r) && parent_of(a1, r) == r) by {
        if r != p {
            assert(a1[r] == a0[r]);
        }
    }
    // parent links
    assert forall|m: ViewId| #[trigger] nt.mset().contains(m) && m != nt.root implies {
        &&& nt.mset().contains(parent_of(a1, m))
        &&& is_container(a1, parent_of(a1, m))
        &&& children_of(a1, parent_of(a1, m)).contains(m)
    } by {
        if m == id {
            assert(children_of(a1, s)[1] == id);
            assert(children_of(a1, s).contains(id));
        } else if m == s {
            assert(parent_of(a1, s) == p);
            assert(ch1[pos] == s);
            assert(ch1.contains(s));
        } else if m == f {
            assert(parent_of(a1, f) == s);
            assert(children_of(a1, s)[0] == f);
            assert(children_of(a1, s).contains(f));
        } else {
            assert(ot.mset().contains(m));
            assert(parent_of(a1, m) == parent_of(a0, m)) by {
                if m != p {
                    assert(a1[m] == a0[m]);
                }
            }
            let q = parent_of(a0, m);
            assert(ot.mset().contains(q));
            assert(is_container(a1, q)) by {
                if q != p && q != f {
                    assert(a1[q] == a0[q]);
                }
            }
            assert(children_of(a1, q).contains(m)) by {
                if q == p {
                    assert(children_of(a0, p).contains(m));
                    let j = choose|j: int| 0 <= j < ch0.len() && ch0[j] == m;
                    assert(j != pos);
                    assert(ch1[j] == m);
                } else if q == f {
                    assert(children_of(a1, f) == children_of(a0, f));
                    assert(children_of(a0, q).contains(m));
                } else {
                    assert(a1[q] == a0[q]);
                    assert(children_of(a0, q).contains(m));
                }
            }
        }
    }
    // child lists
    assert forall|m: ViewId| #[trigger] nt.mset().contains(m) && is_container(a1, m)
        implies children_wf(a1, nt, m) by {
        if m == p {
            assert forall|j: int| 0 <= j < ch1.len() implies {
                &&& nt.mset().contains(#[trigger] ch1[j])
                &&& ch1[j] != nt.root
                &&& parent_of(a1, ch1[j]) == p
            } by {
                if j == pos {
                    assert(ch1[j] == s);
                } else {
                    let c = ch0[j];
                    assert(ch1[j] == c);
                    assert(ot.mset().contains(c));
                    assert(c != r);
                    assert(parent_of(a0, c) == p);
                    assert(c != f) by {
                        if c == f {
                            assert(ch0[pos] == f && ch0[j] == f);
                        }
                    }
                    assert(parent_of(a1, c) == p) by {
                        if c != p {
                            assert(a1[c] == a0[c]);
                        }
                    }
                }
            }
        } else if m == s {
            let chs = children_of(a1, s);
            assert(chs.no_duplicates()) by {
                assert(chs.len() == 2 && chs[0] == f && chs[1] == id && f != id);
            }
            assert forall|j: int| 0 <= j < chs.len() implies {
                &&& nt.mset().contains(#[trigger] chs[j])
                &&& chs[j] != nt.root
                &&& parent_of(a1, chs[j]) == s
            } by {
                if j == 0 {
                    assert(chs[0] == f);
                } else {
                    assert(chs[1] == id);
                }
            }
        } else if m == id {
            assert(is_pane(a1, id));
        } else if m == f {
            assert(is_container(a0, f));
            assert(children_wf(a0, ot, f));
            assert(children_of(a1, f) == children_of(a0, f));
            assert forall|j: int| 0 <= j < children_of(a1, f).len() implies {
                &&& nt.mset().contains(#[trigger] children_of(a1, f)[j])
                &&& children_of(a1, f)[j] != nt.root
                &&& parent_of(a1, children_of(a1, f)[j]) == f
            } by {
                let c = children_of(a0, f)[j];
                assert(ot.mset().contains(c));
                assert(parent_of(a0, c) == f);
                assert(c != id && c != s);
                assert(c != f) by {
                    if c == f {
                        assert(parent_of(a0, f) == f);
                        crate::chains::lemma_no_self_parent(a0, r, f);
                    }
                }
                assert(c != p || parent_of(a0, c) == f);
                assert(parent_of(a1, c) == f) by {
                    if c != p {
                        assert(a1[c] == a0[c]);
                    } else {
                        assert(parent_of(a1, p) == parent_of(a0, p));
                    }
                }
            }
        } else {
            assert(ot.mset().contains(m));
            assert(a1[m] == a0[m]);
            assert(is_container(a0, m));
            assert(children_wf(a0, ot, m));
            assert(children_of(a1, m) == children_of(a0, m));
            assert forall|j: int| 0 <= j < children_of(a1, m).len() implies {
                &&& nt.mset().contains(#[trigger] children_of(a1, m)[j])
                &&& children_of(a1, m)[j] != nt.root
                &&& parent_of(a1, children_of(a1, m)[j]) == m
            } by {
                let c = children_of(a0, m)[j];
                assert(ot.mset().contains(c));
                assert(parent_of(a0, c) == m);
                assert(c != id && c != s);
                assert(parent_of(a1, c) == m) by {
                    if c == f {
                        assert(parent_of(a0, f) == p);
                        assert(m == p);
                        assert(a1[m] == a0[m]);
                        assert(children_of(a1, p) == children_of(a0, p));
                        assert(ch1 == ch0);
                        assert(ch1[pos] == s && ch0[pos] == f);
                    } else if c != p {
                        assert(a1[c] == a0[c]);
                    }
                }
            }
        }
    }
    // non-root containers stay nonempty
    assert forall|m: ViewId|
        #[trigger] nt.mset().contains(m) && is_container(a1, m) && m != nt.root
        implies children_of(a1, m).len() >= 1 by {
        if m == s {
            assert(children_of(a1, s).len() == 2);
        } else if m == p && p == r {
        } else if m == f {
            assert(children_of(a1, f) == children_of(a0, f));
            assert(is_container(a0, f) && ot.mset().contains(f) && f != r);
        } else if m != id && m != p {
            assert(a1[m] == a0[m]);
            assert(is_container(a0, m));
            assert(ot.mset().contains(m));
        } else if m == p {
            assert(ch1.len() == ch0.len());
            assert(ot.mset().contains(p) && is_container(a0, p));
            if p != r {
                assert(children_of(a0, p).len() >= 1);
            }
        }
    }
    // panes carry their own identifier
    assert forall|m: ViewId| #[trigger] nt.mset().contains(m) && is_pane(a1, m)
        implies pane_of(a1, m).id == m by {
        if m == id {
        } else if m == f {
            assert(ot.mset().contains(f));
            assert(is_pane(a0, f));
        } else {
            assert(m != s);
            assert(ot.mset().contains(m));
            assert(a1[m] == a0[m]) by {
                if m == p {
                    assert(is_container(a1, p));
                }
            }
            assert(is_pane(a0, m));
        }
    }
    // anchor chains: every old member still reaches the root, possibly one
    // hop longer through the new container; the two fresh nodes hang off it
    assert(has_chain(a1, r, s)) by {
        let n = choose|n: nat| chain_to_root(a0, r, p, n);
        assert(chain_to_root(a0, r, p, n));
        lemma_hops_shape(a0, r, ot.mset(), p, n);
        assert forall|x: ViewId| #[trigger] chain_hops(a0, r, p, n).contains(x) implies {
            &&& a1.dom().contains(x)
            &&& parent_of(a1, x) == parent_of(a0, x)
        } by {
            assert(ot.mset().contains(x));
            assert(x == p || is_container(a0, x));
            assert(x != f) by {
                if x == f {
                    assert(is_pane(a0, f)) by {
                        assert(children_of(a0, r).len() != 0) by {
                            crate::tabs::lemma_nonroot_member_root_nonempty(a0, ot, f);
                        }
                    }
                    if x == p {
                        assert(parent_of(a0, f) == f);
                        crate::chains::lemma_no_self_parent(a0, r, f);
                    } else {
                        assert(is_container(a0, x));
                    }
                }
            }
            assert(parent_of(a1, x) == parent_of(a0, x)) by {
                if x != p {
                    assert(a1[x] == a0[x]);
                }
            }
        }
        lemma_chain_frame(a0, a1, r, p, n);
        lemma_chain_step(a1, r, s, n);
    }
    assert forall|m: ViewId| #[trigger] nt.mset().contains(m) implies has_chain(a1, nt.root, m) by {
        if m == id {
            let k = choose|k: nat| chain_to_root(a1, r, s, k);
            lemma_chain_step(a1, r, id, k);
        } else if m == s {
        } else {
            assert(ot.mset().contains(m));
            let n = choose|n: nat| chain_to_root(a0, r, m, n);
            assert forall|x: ViewId| #[trigger] a0.dom().contains(x) implies x == f || (
            a1.dom().contains(x) && parent_of(a1, x) == parent_of(a0, x)) by {
                if x != f && x != p {
                    assert(a1[x] == a0[x]);
                }
            }
            lemma_split_chain(a0, a1, r, f, s, ot.mset(), m, n);
        }
    }
    // focus
    assert(nt.mset().contains(nt.focus));
    assert(children_of(a1, nt.root).len() != 0) by {
        if p == r {
            assert(ch1.len() == ch0.len());
            assert(ch0.contains(f));
        } else {
            assert(children_of(a1, r) == children_of(a0, r));
            crate::tabs::lemma_nonroot_member_root_nonempty(a0, ot, f);
        }
    }
    assert(is_pane(a1, nt.focus));
}

/// Old chains survive the interposition of the new container: a chain that
/// climbs through the reparented node takes one extra hop.
proof fn lemma_split_chain(
    a0: Map<ViewId, Node>,
    a1: Map<ViewId, Node>,
    root: ViewId,
    f: ViewId,
    s: ViewId,
    mset: Set<ViewId>,
    m: ViewId,
    n: nat,
)
    requires
        chain_to_root(a0, root, m, n),
        root != f,
        !a0.dom().contains(s),
        a1.dom().contains(s),
        parent_of(a1, s) == parent_of(a0, f),
        a1.dom().contains(f) || !a0.dom().contains(f),
        parent_of(a1, f) == s,
        forall|x: ViewId|
            #[trigger] a0.dom().contains(x) ==> x == f || (a1.dom().contains(x) && parent_of(
                a1,
                x,
            ) == parent_of(a0, x)),
    ensures
        has_chain(a1, root, m),
    decreases n,
{
    if m == root {
        assert(chain_to_root(a1, root, m, 0));
    } else {
        assert(n != 0);
        let q = parent_of(a0, m);
        assert(a0.dom().contains(m));
        lemma_split_chain(a0, a1, root, f, s, mset, q, (n - 1) as nat);
        let k = choose|k: nat| chain_to_root(a1, root, q, k);
        if m == f {
            assert(parent_of(a1, s) == q);
            lemma_chain_step(a1, root, s, k);
            lemma_chain_step(a1, root, f, k + 1);
        } else {
            assert(parent_of(a1, m) == q);
            lemma_chain_step(a1, root, m, k);
        }
    }
}

impl Tabs {
    /// Splits the focused node of workspace `tab`: if its parent container
    /// already runs along `layout`, the new pane becomes a sibling right
    /// after it; otherwise a fresh container with axis `layout` takes the
    /// focused node's place and holds it and the new pane.  Focuses the new
    /// pane and recomputes every workspace's layout.
    pub fn split(&mut self, tab: TabId, view: Pane, layout: Layout) -> (id: ViewId)
        requires
            old(self).wf(),
            old(self).tmap().dom().contains(tab),
            old(self).arena().dom().len() + 2 <= MAX_NODES,
            children_of(old(self).arena(), old(self).tmap()[tab].root).len() != 0 || layout_of(
                old(self).arena(),
                parent_of(old(self).arena(), old(self).tmap()[tab].focus),
            ) == layout,
        ensures
            final(self).wf(),
            !old(self).arena().dom().contains(id),
            final(self).tmap().dom() == old(self).tmap().dom(),
            final(self).active() == old(self).active(),
            final(self).tmap()[tab].focus == id,
            final(self).tmap()[tab].root == old(self).tmap()[tab].root,
            final(self).tmap()[tab].area == old(self).tmap()[tab].area,
            is_pane(final(self).arena(), id),
            pane_of(final(self).arena(), id).id == id,
            pane_of(final(self).arena(), id).doc == view.doc,
            tree_solved(final(self).arena(), final(self).tmap()[tab]),
            layout_of(old(self).arena(), parent_of(old(self).arena(), old(self).tmap()[tab].focus))
                == layout ==> {
                let p = parent_of(old(self).arena(), old(self).tmap()[tab].focus);
                &&& final(self).arena().dom() == old(self).arena().dom().insert(id)
                &&& final(self).arena().dom().len() == old(self).arena().dom().len() + 1
                &&& final(self).mset_of(tab) == old(self).mset_of(tab).insert(id)
                &&& parent_of(final(self).arena(), id) == p
                &&& children_of(final(self).arena(), p) == insert_after(
                    children_of(old(self).arena(), p),
                    old(self).tmap()[tab].focus,
                    id,
                )
                &&& is_container(final(self).arena(), p)
                &&& layout_of(final(self).arena(), p) == layout_of(old(self).arena(), p)
                &&& parent_of(final(self).arena(), p) == parent_of(old(self).arena(), p)
                &&& forall|m: ViewId|
                    old(self).arena().dom().contains(m) && m != p ==> node_same_shape(
                        final(self).arena()[m],
                        #[trigger] old(self).arena()[m],
                    )
            },
            layout_of(old(self).arena(), parent_of(old(self).arena(), old(self).tmap()[tab].focus))
                != layout ==> {
                let f = old(self).tmap()[tab].focus;
                let p = parent_of(old(self).arena(), f);
                let s = parent_of(final(self).arena(), id);
                &&& !old(self).arena().dom().contains(s)
                &&& s != id
                &&& final(self).arena().dom() == old(self).arena().dom().insert(id).insert(s)
                &&& final(self).arena().dom().len() == old(self).arena().dom().len() + 2
                &&& final(self).mset_of(tab) == old(self).mset_of(tab).insert(id).insert(s)
                &&& is_container(final(self).arena(), s)
                &&& layout_of(final(self).arena(), s) == layout
                &&& children_of(final(self).arena(), s) == seq![f, id]
                &&& parent_of(final(self).arena(), f) == s
                &&& parent_of(final(self).arena(), s) == p
                &&& children_of(final(self).arena(), p) == replace_first(
                    children_of(old(self).arena(), p),
                    f,
                    s,
                )
                &&& is_container(final(self).arena(), p)
                &&& layout_of(final(self).arena(), p) == layout_of(old(self).arena(), p)
                &&& parent_of(final(self).arena(), p) == parent_of(old(self).arena(), p)
                &&& node_same_content(final(self).arena()[f], old(self).arena()[f])
                &&& forall|m: ViewId|
                    old(self).arena().dom().contains(m) && m != p && m != f ==> node_same_shape(
                        final(self).arena()[m],
                        #[trigger] old(self).arena()[m],
                    )
            },
            forall|tid: TabId|
                #[trigger] old(self).tmap().dom().contains(tid) && tid != tab ==> {
                    &&& final(self).tmap()[tid].root == old(self).tmap()[tid].root
                    &&& final(self).tmap()[tid].area == old(self).tmap()[tid].area
                    &&& final(self).tmap()[tid].mset() == old(self).tmap()[tid].mset()
                    &&& (children_of(old(self).arena(), old(self).tmap()[tid].root).len() != 0
                        ==> final(self).tmap()[tid].focus == old(self).tmap()[tid].focus
                            && tree_solved(final(self).arena(), final(self).tmap()[tid]))
                },
    {
        let ghost pre = *old(self);
        let ghost ot = old(self).tmap()[tab];
        let focus = self.trees.get(tab).unwrap().focus;
        proof {
            assert(ot.mset().contains(focus));
        }
        let parent = self.nodes.get(focus).unwrap().parent;
        let ghost p = parent;
        proof {
            assert(ot.mset().contains(p)) by {
                if focus != ot.root {
                    assert(ot.mset().contains(parent_of(pre.arena(), focus)));
                } else {
                    assert(parent_of(pre.arena(), ot.root) == ot.root);
                }
            }
            assert(is_container(pre.arena(), p)) by {
                if focus == ot.root {
                    assert(p == ot.root);
                }
            }
        }
        let pnode_ref = self.nodes.get(parent).unwrap();
        let same_layout = match &pnode_ref.content {
            Content::Container(c) => matches!((c.layout, layout),
                (Layout::Horizontal, Layout::Horizontal) | (Layout::Vertical, Layout::Vertical)),
            Content::Pane(_) => {
                proof {
                    assert(is_container(pre.arena(), p));
                }
                false
            },
        };
        proof {
            assert(same_layout == (layout_of(pre.arena(), p) == layout));
        }
        if same_layout {
            let id = self.insert(tab, view);
            return id;
        }
        // a fresh container with the requested axis takes the focused
        // node's place and adopts it together with the new pane
        proof {
            assert(focus != ot.root) by {
                if focus == ot.root {
                    assert(children_of(pre.arena(), ot.root).len() != 0);
                    assert(is_pane(pre.arena(), ot.focus));
                    assert(is_container(pre.arena(), ot.root));
                }
            }
            assert(is_pane(pre.arena(), focus)) by {
                crate::tabs::lemma_nonroot_member_root_nonempty(pre.arena(), ot, focus);
            }
        }
        let node = Node { parent, content: Content::Pane(view) };
        let id = self.nodes.insert(node);
        let fixed = Node {
            parent,
            content: Content::Pane(Pane { id, doc: view.doc, area: view.area }),
        };
        self.nodes.set(id, fixed);
        let mut split_children: Vec<ViewId> = Vec::new();
        split_children.push(focus);
        split_children.push(id);
        let split_node = Node {
            parent,
            content: Content::Container(
                Container { layout, children: split_children, area: Rect::default() },
            ),
        };
        let split_id = self.nodes.insert(split_node);
        proof {
            assert(split_id != id);
        }
        // reparent the focused node under the new container
        let fnode_ref = self.nodes.get(focus).unwrap();
        let fcontent = fnode_ref.content.clone();
        self.nodes.set(focus, Node { parent: split_id, content: fcontent });
        // fix the new pane's parent
        let fixed2 = Node {
            parent: split_id,
            content: Content::Pane(Pane { id, doc: view.doc, area: view.area }),
        };
        self.nodes.set(id, fixed2);
        // replace the focused node by the container in the old parent
        let pnode_ref = self.nodes.get(parent).unwrap();
        let pparent = pnode_ref.parent;
        let (playout, pchildren) = match &pnode_ref.content {
            Content::Container(c) => (c.layout, copy_ids(&c.children)),
            Content::Pane(_) => {
                proof {
                    assert(is_container(pre.arena(), p));
                    assert(p != id && p != split_id && p != focus);
                }
                (Layout::Vertical, Vec::new())
            },
        };
        let mut pchildren = pchildren;
        let found = position_of(&pchildren, focus);
        proof {
            if found is None {
                assert(children_of(pre.arena(), p).contains(focus));
            }
        }
        let pos = found.unwrap();
        pchildren.set(pos, split_id);
        self.nodes.set(
            parent,
            Node {
                parent: pparent,
                content: Content::Container(
                    Container { layout: playout, children: pchildren, area: Rect::default() },
                ),
            },
        );
        let ghost a1 = self.arena();
        proof {
            assert(children_of(a1, p) == replace_first(children_of(pre.arena(), p), focus, split_id))
                by {
                let ch0 = children_of(pre.arena(), p);
                let i = choose|i: int| 0 <= i < ch0.len() && ch0[i] == focus;
                assert(children_wf(pre.arena(), ot, p));
                assert(ch0.no_duplicates());
                assert(pos == i) by {
                    assert(ch0[pos as int] == focus);
                    assert(ch0[i] == focus);
                }
                assert(children_of(a1, p) =~= ch0.update(i, split_id));
            }
        }
        // register the pane and the container; focus the pane
        let t_ref = self.trees.get(tab).unwrap();
        let mut t2 = t_ref.clone();
        t2.focus = id;
        t2.members.insert(&self.nodes, id);
        t2.members.insert(&self.nodes, split_id);
        proof {
            assert forall|x: ViewId| ot.mset().insert(id).contains(x) implies a1.dom().contains(
                x,
            ) by {
                if x != id {
                    assert(pre.arena().dom().contains(x));
                }
            }
        }
        self.trees.set(tab, t2);
        proof {
            let nt = self.tmap()[tab];
            assert(nt.mset() =~= ot.mset().insert(id).insert(split_id));
            assert(a1.dom() =~= pre.arena().dom().insert(id).insert(split_id));
            assert(children_of(a1, split_id) =~= seq![focus, id]);
            lemma_split_wf(pre.arena(), a1, ot, nt, id, split_id, p, focus);
            assert(self.tmap().dom() =~= pre.tmap().dom());
            assert forall|tid: TabId|
                #[trigger] self.tmap().dom().contains(tid) && tid != tab implies tree_wf(
                a1,
                self.tmap()[tid],
            ) by {
                let o = pre.tmap()[tid];
                assert(self.tmap()[tid] == o);
                assert forall|m: ViewId| #[trigger] o.mset().contains(m) implies a1.dom().contains(
                    m,
                ) && a1[m] == pre.arena()[m] by {
                    assert(pre.arena().dom().contains(m));
                    assert(m != id && m != split_id);
                    assert(m != p && m != focus) by {
                        assert(ot.mset().contains(p));
                        assert(ot.mset().contains(focus));
                    }
                }
                lemma_tree_wf_preserved(pre.arena(), a1, o);
            }
            assert(a1.dom().len() == pre.arena().dom().len() + 2) by {
                vstd::set_lib::lemma_len_subset(
                    pre.arena().dom().insert(id),
                    a1.dom(),
                );
                vstd::set_lib::lemma_len_subset(pre.arena().dom(), pre.arena().dom().insert(id));
                assert(pre.arena().dom().insert(id).len() == pre.arena().dom().len() + 1);
                assert(a1.dom() == pre.arena().dom().insert(id).insert(split_id));
                assert(!pre.arena().dom().insert(id).contains(split_id));
            }
            assert(self.wf());
            assert(children_of(a1, self.tmap()[tab].root).len() != 0);
            assert(self.mset_of(tab).contains(focus));
            assert(self.mset_of(tab).contains(p));
            assert(self.mset_of(tab).contains(id));
            assert(self.mset_of(tab).contains(split_id));
        }
        self.recalculate();
        proof {
            assert(final(self).mset_of(tab) =~= pre.mset_of(tab).insert(id).insert(split_id));
            assert(node_same_shape(self.arena()[id], a1[id]));
            assert(node_same_shape(self.arena()[split_id], a1[split_id]));
            assert(self.tmap()[tab].focus == id);
            assert(parent_of(self.arena(), id) == split_id);
            assert(children_of(self.arena(), p) == children_of(a1, p)) by {
                assert(a1.dom().contains(p));
                assert(node_same_shape(self.arena()[p], a1[p]));
                assert(is_container(a1, p));
            }
            assert(is_container(self.arena(), p) && layout_of(self.arena(), p) == layout_of(
                pre.arena(),
                p,
            ) && parent_of(self.arena(), p) == parent_of(pre.arena(), p)) by {
                assert(node_same_shape(self.arena()[p], a1[p]));
                assert(is_container(a1, p));
                assert(layout_of(a1, p) == layout_of(pre.arena(), p));
                assert(parent_of(a1, p) == parent_of(pre.arena(), p));
            }
            assert(children_of(self.arena(), split_id) == children_of(a1, split_id));
            assert(node_same_shape(self.arena()[focus], a1[focus]));
            assert(node_same_content(self.arena()[focus], pre.arena()[focus]));
            assert(parent_of(self.arena(), focus) == split_id);
            assert forall|m: ViewId|
                pre.arena().dom().contains(m) && m != p && m != focus implies node_same_shape(
                self.arena()[m],
                #[trigger] pre.arena()[m],
            ) by {
                assert(m != id && m != split_id);
                assert(a1[m] == pre.arena()[m]);
                assert(a1.dom().contains(m));
                assert(node_same_shape(self.arena()[m], a1[m]));
            }
            assert forall|tid: TabId|
                #[trigger] pre.tmap().dom().contains(tid) && tid != tab implies {
                &&& self.tmap()[tid].root == pre.tmap()[tid].root
                &&& self.tmap()[tid].area == pre.tmap()[tid].area
                &&& self.tmap()[tid].mset() == pre.tmap()[tid].mset()
                &&& (children_of(pre.arena(), pre.tmap()[tid].root).len() != 0 ==> self.tmap()[
                    tid
                ].focus == pre.tmap()[tid].focus && tree_solved(self.arena(), self.tmap()[tid]))
            } by {
                let mid_t = pre.tmap()[tid];
                assert(children_of(a1, mid_t.root) == children_of(pre.arena(), mid_t.root)) by {
                    assert(mid_t.mset().contains(mid_t.root)) by {
                        assert(tree_wf(pre.arena(), mid_t));
                    }
                    assert(mid_t.root != id && mid_t.root != split_id);
                    assert(mid_t.root != p && mid_t.root != focus) by {
                        assert(ot.mset().contains(p));
                        assert(ot.mset().contains(focus));
                    }
                    assert(a1[mid_t.root] == pre.arena()[mid_t.root]);
                }
            }
        }
        id
    }

}

/// `s` with its first occurrence of `x` taken out.
///
/// Meaningful when `x` occurs exactly once in `s`, which the tree invariant
/// guarantees for child lists.
pub open spec fn remove_first(s: Seq<ViewId>, x: ViewId) -> Seq<ViewId>
    recommends
        s.contains(x),
{
    let i = choose|i: int| 0 <= i < s.len() && s[i] == x;
    s.remove(i)
}

/// What taking the only occurrence of `x` out of a duplicate-free list
/// leaves behind.
proof fn lemma_remove_first_facts(s: Seq<ViewId>, x: ViewId)
    requires
        s.contains(x),
        s.no_duplicates(),
    ensures
        remove_first(s, x).len() == s.len() - 1,
        remove_first(s, x).no_duplicates(),
        forall|y: ViewId|
            #[trigger] remove_first(s, x).contains(y) <==> s.contains(y) && y != x,
{
    let i = choose|i: int| 0 <= i < s.len() && s[i] == x;
    let r = s.remove(i);
    assert forall|y: ViewId| #[trigger] r.contains(y) implies s.contains(y) && y != x by {
        let j = choose|j: int| 0 <= j < r.len() && r[j] == y;
        if j < i {
            assert(s[j] == y);
            if y == x {
                assert(s[i] == s[j]);
            }
        } else {
            assert(s[j + 1] == y);
            if y == x {
                assert(s[i] == s[j + 1]);
            }
        }
    }
    assert forall|y: ViewId| s.contains(y) && y != x implies #[trigger] r.contains(y) by {
        let j = choose|j: int| 0 <= j < s.len() && s[j] == y;
        if j < i {
            assert(r[j] == y);
        } else {
            assert(j > i);
            assert(r[j - 1] == y);
        }
    }
    assert(r.no_duplicates()) by {
        assert forall|i2: int, j2: int| 0 <= i2 < r.len() && 0 <= j2 < r.len() && i2 != j2
            implies r[i2] != r[j2] by {
            let u = if i2 < i {
                r[i2] == s[i2]
            } else {
                r[i2] == s[i2 + 1]
            };
            let w = if j2 < i {
                r[j2] == s[j2]
            } else {
                r[j2] == s[j2 + 1]
            };
            assert(u && w);
        }
    }
}

/// After a cascade that removed the set `rem` (a pane and the emptied
/// single-child containers above it, up to the surviving parent `q`), the
/// tree's links still form a tree.
proof fn lemma_remove_wf(
    a0: Map<ViewId, Node>,
    af: Map<ViewId, Node>,
    ot: Tree,
    nt: Tree,
    rem: Set<ViewId>,
    q: ViewId,
    tc: ViewId,
    index: ViewId,
)
    requires
        tree_wf(a0, ot),
        a0.dom().finite(),
        rem.finite(),
        rem.subset_of(ot.mset()),
        rem.contains(index),
        rem.contains(tc),
        !rem.contains(ot.root),
        !rem.contains(q),
        is_pane(a0, index),
        ot.mset().contains(q),
        is_container(a0, q),
        parent_of(a0, tc) == q,
        children_of(a0, q).contains(tc),
        forall|x: ViewId|
            #[trigger] rem.contains(x) && x != index ==> is_container(a0, x) && children_of(
                a0,
                x,
            ).len() == 1 && rem.contains(children_of(a0, x)[0]),
        forall|x: ViewId|
            #[trigger] rem.contains(x) ==> rem.contains(parent_of(a0, x)) || x == tc,
        forall|x: ViewId| #[trigger] rem.contains(x) ==> has_chain(a0, ot.root, x),
        forall|x: ViewId, y: ViewId|
            #[trigger] rem.contains(x) && #[trigger] rem.contains(y) && x != y
                ==> crate::chains::depth_of(a0, ot.root, x) != crate::chains::depth_of(
                a0,
                ot.root,
                y,
            ),
        nt.root == ot.root,
        nt.mset() == ot.mset().difference(rem),
        af.dom() == a0.dom().difference(rem),
        forall|m: ViewId|
            a0.dom().contains(m) && !rem.contains(m) && m != q ==> af[m] == #[trigger] a0[m],
        af.dom().contains(q),
        parent_of(af, q) == parent_of(a0, q),
        is_container(af, q),
        children_of(af, q) == remove_first(children_of(a0, q), tc),
        q != ot.root ==> children_of(af, q).len() >= 1,
    ensures
        tree_linked(af, nt),
        children_of(af, q).len() >= 1 ==> exists|m: ViewId|
            #[trigger] nt.mset().contains(m) && is_pane(af, m),
{
    let r = ot.root;
    let m0 = ot.mset();
    let msf = nt.mset();
    let ch0 = children_of(a0, q);
    let chf = children_of(af, q);
    assert(children_wf(a0, ot, q));
    lemma_remove_first_facts(ch0, tc);
    // no survivor hangs below a removed node
    assert forall|y: ViewId|
        #[trigger] m0.contains(y) && !rem.contains(y) && y != r implies !rem.contains(
        parent_of(a0, y),
    ) by {
        let w = parent_of(a0, y);
        if rem.contains(w) {
            if w == index {
                assert(is_container(a0, parent_of(a0, y)));
            } else {
                assert(children_of(a0, w).len() == 1 && rem.contains(children_of(a0, w)[0]));
                assert(children_of(a0, w).contains(y));
                let j = choose|j: int| 0 <= j < children_of(a0, w).len() && children_of(a0, w)[j]
                    == y;
                assert(j == 0);
            }
        }
    }
    // a removed node under q can only be the cascade's top
    assert forall|y: ViewId| #[trigger] rem.contains(y) && parent_of(a0, y) == q implies y
        == tc by {
        if y != tc {
            assert(rem.contains(parent_of(a0, y)) || y == tc);
            assert(rem.contains(q));
        }
    }
    // membership and closure
    assert forall|m: ViewId| #[trigger] msf.contains(m) implies af.dom().contains(m) by {
        assert(m0.contains(m) && !rem.contains(m));
        assert(a0.dom().contains(m));
    }
    assert(msf.contains(r));
    assert(is_container(af, r) && parent_of(af, r) == r) by {
        if r != q {
            assert(af[r] == a0[r]);
        }
    }
    assert forall|m: ViewId| #[trigger] msf.contains(m) && m != nt.root implies {
        &&& msf.contains(parent_of(af, m))
        &&& is_container(af, parent_of(af, m))
        &&& children_of(af, parent_of(af, m)).contains(m)
    } by {
        assert(m0.contains(m) && !rem.contains(m));
        assert(parent_of(af, m) == parent_of(a0, m)) by {
            if m != q {
                assert(af[m] == a0[m]);
            }
        }
        let w = parent_of(a0, m);
        assert(m0.contains(w) && is_container(a0, w));
        assert(!rem.contains(w));
        assert(is_container(af, w)) by {
            if w != q {
                assert(af[w] == a0[w]);
            }
        }
        assert(children_of(af, w).contains(m)) by {
            if w == q {
                assert(m != tc);
                assert(ch0.contains(m));
                assert(chf.contains(m));
            } else {
                assert(af[w] == a0[w]);
            }
        }
    }
    assert forall|m: ViewId| #[trigger] msf.contains(m) && is_container(af, m)
        implies children_wf(af, nt, m) by {
        assert(m0.contains(m) && !rem.contains(m));
        if m == q {
            assert(chf.no_duplicates());
            assert forall|j: int| 0 <= j < chf.len() implies {
                &&& nt.mset().contains(#[trigger] chf[j])
                &&& chf[j] != nt.root
                &&& parent_of(af, chf[j]) == q
            } by {
                let y = chf[j];
                assert(chf.contains(y));
                assert(ch0.contains(y) && y != tc);
                assert(m0.contains(y) && y != r && parent_of(a0, y) == q);
                assert(!rem.contains(y)) by {
                    if rem.contains(y) {
                        assert(y == tc);
                    }
                }
                assert(parent_of(af, y) == q) by {
                    if y != q {
                        assert(af[y] == a0[y]);
                    }
                }
            }
        } else {
            assert(af[m] == a0[m]);
            assert(is_container(a0, m));
            assert(children_wf(a0, ot, m));
            assert(children_of(af, m) == children_of(a0, m));
            assert forall|j: int| 0 <= j < children_of(af, m).len() implies {
                &&& nt.mset().contains(#[trigger] children_of(af, m)[j])
                &&& children_of(af, m)[j] != nt.root
                &&& parent_of(af, children_of(af, m)[j]) == m
            } by {
                let y = children_of(a0, m)[j];
                assert(m0.contains(y) && y != r && parent_of(a0, y) == m);
                assert(!rem.contains(y)) by {
                    if rem.contains(y) {
                        assert(rem.contains(parent_of(a0, y)) || y == tc);
                        if y == tc {
                            assert(parent_of(a0, tc) == q && m == q);
                        } else {
                            assert(rem.contains(m));
                        }
                    }
                }
                assert(parent_of(af, y) == m) by {
                    if y != q {
                        assert(af[y] == a0[y]);
                    }
                }
            }
        }
    }
    assert forall|m: ViewId|
        #[trigger] msf.contains(m) && is_container(af, m) && m != nt.root
        implies children_of(af, m).len() >= 1 by {
        assert(m0.contains(m) && !rem.contains(m));
        if m != q {
            assert(af[m] == a0[m]);
            assert(is_container(a0, m));
        }
    }
    assert forall|m: ViewId| #[trigger] msf.contains(m) && is_pane(af, m) implies pane_of(
        af,
        m,
    ).id == m by {
        assert(m0.contains(m) && !rem.contains(m));
        assert(af[m] == a0[m]) by {
            if m == q {
                assert(is_container(af, q));
            }
        }
        assert(is_pane(a0, m));
    }
    assert forall|m: ViewId| #[trigger] msf.contains(m) implies has_chain(af, nt.root, m) by {
        assert(m0.contains(m) && !rem.contains(m));
        let n = choose|n: nat| chain_to_root(a0, r, m, n);
        assert(chain_to_root(a0, r, m, n));
        assert forall|y: ViewId|
            #[trigger] m0.contains(y) && !rem.contains(y) && y != r implies m0.contains(
            parent_of(a0, y),
        ) && !rem.contains(parent_of(a0, y)) by {}
        crate::chains::lemma_chain_avoid(a0, r, m0, rem, m, n);
        lemma_hops_shape(a0, r, m0, m, n);
        assert forall|x: ViewId| #[trigger] chain_hops(a0, r, m, n).contains(x) implies {
            &&& af.dom().contains(x)
            &&& parent_of(af, x) == parent_of(a0, x)
        } by {
            assert(m0.contains(x) && !rem.contains(x));
            assert(a0.dom().contains(x));
            if x != q {
                assert(af[x] == a0[x]);
            }
        }
        lemma_chain_frame(a0, af, r, m, n);
    }
    // a surviving child of q leads down to a surviving pane
    if chf.len() >= 1 {
        let c = chf[0];
        assert(chf.contains(c));
        assert(ch0.contains(c) && c != tc);
        assert(m0.contains(c) && parent_of(a0, c) == q && c != r);
        assert(!rem.contains(c)) by {
            if rem.contains(c) {
                assert(c == tc);
            }
        }
        crate::chains::lemma_depth_child(a0, r, q, c);
        assert forall|x: ViewId| #[trigger] rem.contains(x) implies rem.contains(
            parent_of(a0, x),
        ) || parent_of(a0, x) == q by {
            if x == tc {
            }
        }
        crate::tree::lemma_pane_below(a0, ot, q, rem, c, Set::empty());
        let m = choose|m: ViewId|
            ot.mset().contains(m) && is_pane(a0, m) && !rem.contains(m);
        assert(msf.contains(m));
        assert(af[m] == a0[m]) by {
            if m == q {
                assert(is_container(a0, q));
            }
        }
        assert(is_pane(af, m));
    }
}

impl Tabs {
    /// Removes pane `index` from workspace `tab`.  If it was the focus, the
    /// focus first steps to the previous pane in traversal order.  A parent
    /// container left empty is removed the same way, cascading up to (but
    /// never removing) the root.  Every workspace's layout is then
    /// recomputed.
    #[verifier::rlimit(100)]
    pub fn remove(&mut self, tab: TabId, index: ViewId)
        requires
            old(self).wf(),
            old(self).tmap().dom().contains(tab),
            old(self).mset_of(tab).contains(index),
            is_pane(old(self).arena(), index),
        ensures
            final(self).wf(),
            final(self).tmap().dom() == old(self).tmap().dom(),
            final(self).active() == old(self).active(),
            final(self).tmap()[tab].root == old(self).tmap()[tab].root,
            final(self).tmap()[tab].area == old(self).tmap()[tab].area,
            !final(self).mset_of(tab).contains(index),
            !final(self).arena().dom().contains(index),
            final(self).arena().dom().len() <= old(self).arena().dom().len(),
            old(self).tmap()[tab].focus != index ==> final(self).tmap()[tab].focus == old(
                self,
            ).tmap()[tab].focus,
            old(self).tmap()[tab].focus == index && children_of(
                final(self).arena(),
                final(self).tmap()[tab].root,
            ).len() != 0 ==> final(self).tmap()[tab].focus == crate::tabs::pred_wrapping(
                crate::nav::pane_order(old(self).arena(), old(self).tmap()[tab]),
                index,
            ),
            exists|rem: Set<ViewId>, top: ViewId, q: ViewId|
                {
                    &&& rem.contains(index)
                    &&& #[trigger] rem.contains(top)
                    &&& rem.subset_of(old(self).mset_of(tab))
                    &&& !rem.contains(old(self).tmap()[tab].root)
                    &&& final(self).mset_of(tab) == old(self).mset_of(tab).difference(rem)
                    &&& final(self).arena().dom() == old(self).arena().dom().difference(rem)
                    &&& forall|x: ViewId|
                        #[trigger] rem.contains(x) && x != index ==> is_container(
                            old(self).arena(),
                            x,
                        ) && children_of(old(self).arena(), x).len() == 1 && rem.contains(
                            children_of(old(self).arena(), x)[0],
                        )
                    &&& forall|x: ViewId|
                        #[trigger] rem.contains(x) ==> rem.contains(
                            parent_of(old(self).arena(), x),
                        ) || x == top
                    &&& q == parent_of(old(self).arena(), top)
                    &&& !(#[trigger] rem.contains(q))
                    &&& old(self).mset_of(tab).contains(q)
                    &&& children_of(old(self).arena(), q).contains(top)
                    &&& children_of(old(self).arena(), q).len() >= 2 || q == old(self).tmap()[
                        tab
                    ].root
                    &&& children_of(final(self).arena(), q) == remove_first(
                        children_of(old(self).arena(), q),
                        top,
                    )
                    &&& is_container(final(self).arena(), q)
                    &&& layout_of(final(self).arena(), q) == layout_of(old(self).arena(), q)
                    &&& parent_of(final(self).arena(), q) == parent_of(old(self).arena(), q)
                    &&& forall|m: ViewId|
                        old(self).arena().dom().contains(m) && !rem.contains(m) && m != q
                            ==> node_same_shape(
                            final(self).arena()[m],
                            #[trigger] old(self).arena()[m],
                        )
                },
            forall|tid: TabId|
                #[trigger] old(self).tmap().dom().contains(tid) && tid != tab ==> {
                    &&& final(self).tmap()[tid].root == old(self).tmap()[tid].root
                    &&& final(self).tmap()[tid].area == old(self).tmap()[tid].area
                    &&& final(self).tmap()[tid].mset() == old(self).tmap()[tid].mset()
                    &&& (children_of(old(self).arena(), old(self).tmap()[tid].root).len() != 0
                        ==> final(self).tmap()[tid].focus == old(self).tmap()[tid].focus
                            && tree_solved(final(self).arena(), final(self).tmap()[tid]))
                },
            children_of(final(self).arena(), final(self).tmap()[tab].root).len() != 0
                ==> tree_solved(final(self).arena(), final(self).tmap()[tab])
                    && is_pane(final(self).arena(), final(self).tmap()[tab].focus),
            children_of(final(self).arena(), final(self).tmap()[tab].root).len() == 0
                ==> final(self).tmap()[tab].focus == final(self).tmap()[tab].root,
    {
        let ghost pre = *old(self);
        let ghost ot = old(self).tmap()[tab];
        let ghost a0 = pre.arena();
        let ghost m0 = ot.mset();
        let ghost root = ot.root;
        proof {
            assert(tree_wf(a0, ot));
            assert(index != root);
            assert(children_of(a0, root).len() != 0) by {
                crate::tabs::lemma_nonroot_member_root_nonempty(a0, ot, index);
            }
            assert(m0.finite()) by {
                assert forall|x: ViewId| m0.contains(x) implies a0.dom().contains(x) by {
                    assert(ot.mset().contains(x));
                }
                vstd::set_lib::lemma_set_subset_finite(a0.dom(), m0);
            }
        }
        // move the focus off the doomed pane first
        let old_focus = self.trees.get(tab).unwrap().focus;
        if key_eq(old_focus, index) {
            let p = self.prev(tab);
            let t_ref = self.trees.get(tab).unwrap();
            let mut t2 = t_ref.clone();
            t2.focus = p;
            self.trees.set(tab, t2);
            proof {
                assert(self.tmap().dom() =~= pre.tmap().dom());
            }
        }
        let ghost f1 = self.tmap()[tab].focus;
        proof {
            assert(m0.contains(f1) && is_pane(a0, f1));
            assert(f1 == index ==> !(exists|m: ViewId|
                m0.contains(m) && is_pane(a0, m) && m != index));
            assert(ot.focus == index ==> f1 == crate::tabs::pred_wrapping(
                crate::nav::pane_order(a0, ot),
                index,
            ));
            assert(ot.focus != index ==> f1 == ot.focus);
        }
        let mut cur = index;
        let ghost mut rem: Set<ViewId> = Set::empty();
        let ghost mut gq: ViewId = index;
        let ghost mut gtc: ViewId = index;
        loop
            invariant_except_break
                m0.contains(cur),
                cur != root,
                !rem.contains(cur),
                has_chain(a0, root, cur),
                rem.contains(index) || cur == index,
                forall|x: ViewId|
                    #[trigger] rem.contains(x) ==> has_chain(a0, root, x)
                        && crate::chains::depth_of(a0, root, x) > crate::chains::depth_of(
                        a0,
                        root,
                        cur,
                    ),
                forall|x: ViewId|
                    #[trigger] rem.contains(x) ==> parent_of(a0, x) == cur || rem.contains(
                        parent_of(a0, x),
                    ),
                cur == index || (is_container(a0, cur) && children_of(a0, cur).len() == 1
                    && rem.contains(children_of(a0, cur)[0])),
                forall|m: ViewId|
                    a0.dom().contains(m) && !rem.contains(m) && m != cur ==> self.arena()[m]
                        == #[trigger] a0[m],
                cur == index ==> self.arena()[cur] == a0[cur],
                cur != index ==> {
                    &&& self.arena().dom().contains(cur)
                    &&& parent_of(self.arena(), cur) == parent_of(a0, cur)
                    &&& is_container(self.arena(), cur)
                    &&& children_of(self.arena(), cur).len() == 0
                },
            invariant
                pre.wf(),
                pre.tmap().dom().contains(tab),
                ot == pre.tmap()[tab],
                a0 == pre.arena(),
                m0 == ot.mset(),
                m0.finite(),
                root == ot.root,
                tree_wf(a0, ot),
                index != root,
                m0.contains(index),
                is_pane(a0, index),
                m0.contains(f1),
                is_pane(a0, f1),
                f1 == index ==> !(exists|m: ViewId|
                    m0.contains(m) && is_pane(a0, m) && m != index),
                rem.finite(),
                rem.subset_of(m0),
                !rem.contains(root),
                forall|x: ViewId, y: ViewId|
                    #[trigger] rem.contains(x) && #[trigger] rem.contains(y) && x != y
                        ==> crate::chains::depth_of(a0, root, x) != crate::chains::depth_of(
                        a0,
                        root,
                        y,
                    ),
                forall|x: ViewId|
                    #[trigger] rem.contains(x) && x != index ==> is_container(a0, x)
                        && children_of(a0, x).len() == 1 && rem.contains(children_of(a0, x)[0]),
                self.tmap().dom() == pre.tmap().dom(),
                self.active() == pre.active(),
                self.arena().dom() == a0.dom().difference(rem),
                self.mset_of(tab) == m0.difference(rem),
                self.tmap()[tab].root == root,
                self.tmap()[tab].area == ot.area,
                self.tmap()[tab].id == ot.id,
                self.tmap()[tab].focus == f1,
                forall|tid: TabId|
                    #[trigger] pre.tmap().dom().contains(tid) && tid != tab ==> self.tmap()[tid]
                        == pre.tmap()[tid],
            ensures
                pre.wf(),
                rem.contains(index),
                rem.finite(),
                rem.subset_of(m0),
                !rem.contains(root),
                !rem.contains(gq),
                rem.contains(gtc),
                m0.contains(gq),
                is_container(a0, gq),
                parent_of(a0, gtc) == gq,
                children_of(a0, gq).contains(gtc),
                forall|x: ViewId|
                    #[trigger] rem.contains(x) && x != index ==> is_container(a0, x)
                        && children_of(a0, x).len() == 1 && rem.contains(children_of(a0, x)[0]),
                forall|x: ViewId|
                    #[trigger] rem.contains(x) ==> rem.contains(parent_of(a0, x)) || x == gtc,
                forall|x: ViewId| #[trigger] rem.contains(x) ==> has_chain(a0, root, x),
                forall|x: ViewId, y: ViewId|
                    #[trigger] rem.contains(x) && #[trigger] rem.contains(y) && x != y
                        ==> crate::chains::depth_of(a0, root, x) != crate::chains::depth_of(
                        a0,
                        root,
                        y,
                    ),
                self.tmap().dom() == pre.tmap().dom(),
                self.active() == pre.active(),
                self.arena().dom() == a0.dom().difference(rem),
                self.mset_of(tab) == m0.difference(rem),
                self.tmap()[tab].root == root,
                self.tmap()[tab].area == ot.area,
                self.tmap()[tab].id == ot.id,
                self.tmap()[tab].focus == f1,
                m0.contains(f1),
                is_pane(a0, f1),
                f1 == index ==> !(exists|m: ViewId|
                    m0.contains(m) && is_pane(a0, m) && m != index),
                forall|tid: TabId|
                    #[trigger] pre.tmap().dom().contains(tid) && tid != tab ==> self.tmap()[tid]
                        == pre.tmap()[tid],
                forall|m: ViewId|
                    a0.dom().contains(m) && !rem.contains(m) && m != gq ==> self.arena()[m]
                        == #[trigger] a0[m],
                self.arena().dom().contains(gq),
                parent_of(self.arena(), gq) == parent_of(a0, gq),
                is_container(self.arena(), gq),
                layout_of(self.arena(), gq) == layout_of(a0, gq),
                children_of(self.arena(), gq) == remove_first(children_of(a0, gq), gtc),
                gq != root ==> children_of(self.arena(), gq).len() >= 1,
            decreases crate::chains::depth_of(a0, root, cur),
        {
            let ghost rem0 = rem;
            proof {
                crate::chains::lemma_depth_parent(a0, root, cur);
            }
            let p = self.nodes.get(cur).unwrap().parent;
            proof {
                assert(p == parent_of(a0, cur)) by {
                    if cur == index {
                        assert(self.arena()[cur] == a0[cur]);
                    }
                }
                assert(m0.contains(p));
                assert(is_container(a0, p));
                assert(!rem0.contains(p)) by {
                    if rem0.contains(p) {
                        assert(crate::chains::depth_of(a0, root, p) > crate::chains::depth_of(
                            a0,
                            root,
                            cur,
                        ));
                    }
                }
                assert(p != cur) by {
                    crate::chains::lemma_no_self_parent(a0, root, cur);
                }
                assert(self.arena()[p] == a0[p]);
                assert(children_of(a0, p).contains(cur));
                assert(children_wf(a0, ot, p));
                assert(a0.dom().contains(p));
            }
            // detach cur from its parent's child list
            let pnode_ref = self.nodes.get(p).unwrap();
            let pparent = pnode_ref.parent;
            let (playout, pchildren) = match &pnode_ref.content {
                Content::Container(c) => (c.layout, copy_ids(&c.children)),
                Content::Pane(_) => {
                    proof {
                        assert(is_container(a0, p));
                    }
                    (Layout::Vertical, Vec::new())
                },
            };
            let mut pchildren = pchildren;
            let found = position_of(&pchildren, cur);
            let pos = found.unwrap();
            let ghost ch0 = children_of(a0, p);
            pchildren.remove(pos);
            let now_empty = pchildren.len() == 0;
            self.nodes.set(
                p,
                Node {
                    parent: pparent,
                    content: Content::Container(
                        Container { layout: playout, children: pchildren, area: Rect::default() },
                    ),
                },
            );
            proof {
                assert(children_of(self.arena(), p) == remove_first(ch0, cur)) by {
                    let i = choose|i: int| 0 <= i < ch0.len() && ch0[i] == cur;
                    assert(ch0.no_duplicates());
                    assert(pos == i) by {
                        assert(ch0[pos as int] == cur);
                        assert(ch0[i] == cur);
                    }
                    assert(children_of(self.arena(), p) =~= ch0.remove(i));
                }
                assert(layout_of(self.arena(), p) == layout_of(a0, p));
                lemma_remove_first_facts(ch0, cur);
            }
            // drop cur from the member set and the arena
            let t_ref = self.trees.get(tab).unwrap();
            let mut t2 = t_ref.clone();
            t2.members.remove(cur);
            self.trees.set(tab, t2);
            self.nodes.remove(cur);
            proof {
                rem = rem0.insert(cur);
                vstd::set_lib::lemma_len_subset(rem, m0);
                assert(self.mset_of(tab) =~= m0.difference(rem));
                assert(self.arena().dom() =~= a0.dom().difference(rem));
                assert(self.tmap().dom() =~= pre.tmap().dom());
            }
            let is_root = {
                let r_ref = self.trees.get(tab).unwrap();
                key_eq(p, r_ref.root)
            };
            if now_empty && !is_root {
                proof {
                    assert(children_of(a0, p).len() == 1) by {
                        assert(remove_first(ch0, cur).len() == ch0.len() - 1);
                    }
                    assert(children_of(a0, p)[0] == cur) by {
                        assert(ch0.contains(cur));
                        let i = choose|i: int| 0 <= i < ch0.len() && ch0[i] == cur;
                        assert(i == 0);
                    }
                    assert(!rem.contains(p));
                    assert forall|x: ViewId| #[trigger] rem.contains(x) implies parent_of(a0, x)
                        == p || rem.contains(parent_of(a0, x)) by {
                        if x == cur {
                        } else {
                            assert(parent_of(a0, x) == cur || rem0.contains(parent_of(a0, x)));
                        }
                    }
                    assert forall|x: ViewId| #[trigger] rem.contains(x) implies has_chain(
                        a0,
                        root,
                        x,
                    ) && crate::chains::depth_of(a0, root, x) > crate::chains::depth_of(
                        a0,
                        root,
                        p,
                    ) by {
                        if x != cur {
                            assert(crate::chains::depth_of(a0, root, x) > crate::chains::depth_of(
                                a0,
                                root,
                                cur,
                            ));
                        }
                    }
                }
                cur = p;
            } else {
                proof {
                    gq = p;
                    gtc = cur;
                    assert forall|x: ViewId| #[trigger] rem.contains(x) implies rem.contains(
                        parent_of(a0, x),
                    ) || x == gtc by {
                        if x != cur {
                            assert(parent_of(a0, x) == cur || rem0.contains(parent_of(a0, x)));
                        }
                    }
                    assert(gq != root ==> children_of(self.arena(), gq).len() >= 1) by {
                        if !now_empty {
                            assert(children_of(self.arena(), p).len() >= 1);
                        }
                    }
                }
                break ;
            }
        }
        // restore the tree's shape, park the focus if the tree emptied, and
        // re-solve every layout
        let ghost af = self.arena();
        let ghost nt0 = self.tmap()[tab];
        proof {
            lemma_remove_wf(a0, af, ot, nt0, rem, gq, gtc, index);
        }
        let empty_now = {
            let t_ref = self.trees.get(tab).unwrap();
            let root_ref = self.nodes.get(t_ref.root).unwrap();
            match &root_ref.content {
                Content::Container(c) => c.children.len() == 0,
                Content::Pane(_) => false,
            }
        };
        if empty_now {
            proof {
                assert(f1 == index) by {
                    if f1 != index {
                        assert(!rem.contains(f1)) by {
                            if rem.contains(f1) {
                                assert(is_container(a0, f1));
                            }
                        }
                        assert(nt0.mset().contains(f1));
                        assert(f1 != root) by {
                            assert(is_pane(a0, f1) && is_container(a0, root));
                        }
                        crate::tabs::lemma_nonroot_member_root_nonempty(af, nt0, f1);
                        assert(children_of(af, root).len() >= 1);
                    }
                }
            }
            let t_ref = self.trees.get(tab).unwrap();
            let mut t2 = t_ref.clone();
            t2.focus = t2.root;
            self.trees.set(tab, t2);
            proof {
                assert(self.tmap().dom() =~= pre.tmap().dom());
                assert(self.mset_of(tab) =~= m0.difference(rem));
                assert(tree_linked(af, self.tmap()[tab]));
                assert(tree_wf(af, self.tmap()[tab]));
            }
        } else {
            proof {
                let nt = self.tmap()[tab];
                assert(is_container(af, root)) by {
                    if root != gq {
                        assert(af[root] == a0[root]);
                    }
                }
                assert(children_of(af, root).len() != 0);
                // the focus survived: a surviving pane exists, so the focus
                // cannot have been the removed pane
                assert(children_of(af, gq).len() >= 1) by {
                    if gq != root {
                    } else {
                        assert(children_of(af, gq) == children_of(af, root));
                    }
                }
                let m = choose|m: ViewId|
                    #[trigger] nt.mset().contains(m) && is_pane(af, m);
                assert(f1 != index) by {
                    if f1 == index {
                        assert(m0.contains(m) && !rem.contains(m));
                        assert(af[m] == a0[m]) by {
                            if m == gq {
                                assert(is_container(af, gq));
                            }
                        }
                        assert(is_pane(a0, m));
                        assert(m != index);
                        assert(m0.contains(m) && is_pane(a0, m) && m != index);
                    }
                }
                assert(!rem.contains(f1)) by {
                    if rem.contains(f1) {
                        assert(is_container(a0, f1));
                    }
                }
                assert(nt.mset().contains(f1));
                assert(af[f1] == a0[f1]) by {
                    if f1 == gq {
                        assert(is_container(a0, gq));
                    }
                }
                assert(is_pane(af, f1));
                assert(tree_wf(af, nt));
            }
        }
        proof {
            assert forall|tid: TabId| #[trigger] self.tmap().dom().contains(tid) implies tree_wf(
                self.arena(),
                self.tmap()[tid],
            ) && self.tmap()[tid].id == tid && self.tmap()[tid].area.valid() by {
                if tid != tab {
                    let o = pre.tmap()[tid];
                    assert(self.tmap()[tid] == o);
                    assert forall|m: ViewId| #[trigger] o.mset().contains(m)
                        implies self.arena().dom().contains(m) && self.arena()[m] == a0[m] by {
                        assert(pre.arena().dom().contains(m));
                        assert(!rem.contains(m)) by {
                            assert(rem.subset_of(m0));
                        }
                        assert(m != gq) by {
                            assert(m0.contains(gq));
                        }
                    }
                    lemma_tree_wf_preserved(a0, self.arena(), o);
                } else {
                    assert(tree_wf(self.arena(), self.tmap()[tab]));
                }
            }
            assert(self.wf()) by {
                vstd::set_lib::lemma_len_subset(self.arena().dom(), a0.dom());
                vstd::set_lib::lemma_len_subset(self.tmap().dom(), self.tmap().dom());
            }
        }
        let ghost smid = *self;
        self.recalculate();
        proof {
            assert(!final(self).mset_of(tab).contains(index));
            assert(!final(self).arena().dom().contains(index));
            assert(self.arena().dom().len() <= a0.dom().len()) by {
                vstd::set_lib::lemma_len_subset(self.arena().dom(), a0.dom());
            }
            assert(final(self).mset_of(tab) == m0.difference(rem));
            assert(final(self).arena().dom() == a0.dom().difference(rem));
            assert(rem.contains(index) && rem.subset_of(m0) && !rem.contains(root));
            assert forall|tid: TabId|
                #[trigger] pre.tmap().dom().contains(tid) && tid != tab implies {
                &&& self.tmap()[tid].root == pre.tmap()[tid].root
                &&& self.tmap()[tid].area == pre.tmap()[tid].area
                &&& self.tmap()[tid].mset() == pre.tmap()[tid].mset()
                &&& (children_of(pre.arena(), pre.tmap()[tid].root).len() != 0 ==> self.tmap()[
                    tid
                ].focus == pre.tmap()[tid].focus && tree_solved(self.arena(), self.tmap()[tid]))
            } by {
                let mid_t = smid.tmap()[tid];
                assert(mid_t == pre.tmap()[tid]);
                assert(children_of(smid.arena(), mid_t.root) == children_of(
                    pre.arena(),
                    mid_t.root,
                )) by {
                    assert(mid_t.mset().contains(mid_t.root)) by {
                        assert(tree_wf(pre.arena(), mid_t));
                    }
                    assert(!rem.contains(mid_t.root)) by {
                        assert(rem.subset_of(m0));
                    }
                    assert(mid_t.root != gq) by {
                        assert(m0.contains(gq));
                    }
                    assert(smid.arena()[mid_t.root] == a0[mid_t.root]);
                }
            }
            assert(children_of(smid.arena(), root) == children_of(self.arena(), root)) by {
                assert(smid.mset_of(tab).contains(root));
                assert(node_same_shape(self.arena()[root], smid.arena()[root]));
                assert(is_container(smid.arena(), root));
            }
            assert(children_of(self.arena(), root).len() != 0 ==> is_pane(
                self.arena(),
                self.tmap()[tab].focus,
            )) by {
                if children_of(smid.arena(), root).len() != 0 {
                    assert(self.tmap()[tab].focus == smid.tmap()[tab].focus);
                    assert(is_pane(smid.arena(), smid.tmap()[tab].focus)) by {
                        assert(tree_wf(smid.arena(), smid.tmap()[tab]));
                    }
                    assert(smid.mset_of(tab).contains(smid.tmap()[tab].focus));
                    assert(node_same_shape(
                        self.arena()[smid.tmap()[tab].focus],
                        smid.arena()[smid.tmap()[tab].focus],
                    ));
                }
            }
            // the focus rule
            assert(ot.focus != index ==> self.tmap()[tab].focus == ot.focus) by {
                if ot.focus != index {
                    assert(f1 == ot.focus);
                    assert(smid.tmap()[tab].focus == f1);
                    assert(children_of(smid.arena(), root).len() != 0) by {
                        assert(tree_wf(smid.arena(), smid.tmap()[tab]));
                        assert(is_pane(a0, f1) && is_container(a0, root));
                        if children_of(smid.arena(), root).len() == 0 {
                            assert(smid.tmap()[tab].focus == root);
                        }
                    }
                    assert(self.tmap()[tab].focus == smid.tmap()[tab].focus);
                }
            }
            assert(ot.focus == index && children_of(self.arena(), root).len() != 0
                ==> self.tmap()[tab].focus == crate::tabs::pred_wrapping(
                crate::nav::pane_order(a0, ot),
                index,
            )) by {
                if ot.focus == index && children_of(self.arena(), root).len() != 0 {
                    assert(children_of(smid.arena(), root).len() != 0);
                    assert(smid.tmap()[tab].focus == f1);
                    assert(self.tmap()[tab].focus == smid.tmap()[tab].focus);
                }
            }
            // the cascade witness: the removed set, its top, and the
            // surviving parent
            assert(children_of(self.arena(), gq) == children_of(smid.arena(), gq)) by {
                assert(smid.mset_of(tab).contains(gq)) by {
                    assert(m0.contains(gq) && !rem.contains(gq));
                }
                assert(node_same_shape(self.arena()[gq], smid.arena()[gq]));
                assert(is_container(smid.arena(), gq));
            }
            assert(is_container(self.arena(), gq) && layout_of(self.arena(), gq) == layout_of(
                a0,
                gq,
            ) && parent_of(self.arena(), gq) == parent_of(a0, gq)) by {
                assert(smid.mset_of(tab).contains(gq));
                assert(node_same_shape(self.arena()[gq], smid.arena()[gq]));
                assert(is_container(smid.arena(), gq));
                assert(layout_of(smid.arena(), gq) == layout_of(a0, gq));
                assert(parent_of(smid.arena(), gq) == parent_of(a0, gq));
            }
            assert(children_of(a0, gq).len() >= 2 || gq == root) by {
                lemma_remove_first_facts(children_of(a0, gq), gtc);
                if gq != root {
                    assert(children_of(smid.arena(), gq).len() >= 1);
                }
            }
            assert forall|m: ViewId|
                a0.dom().contains(m) && !rem.contains(m) && m != gq implies node_same_shape(
                self.arena()[m],
                #[trigger] a0[m],
            ) by {
                assert(smid.arena()[m] == a0[m]);
                assert(smid.arena().dom().contains(m));
                assert(node_same_shape(self.arena()[m], smid.arena()[m]));
            }
            assert({
                &&& rem.contains(index)
                &&& rem.contains(gtc)
                &&& rem.subset_of(pre.mset_of(tab))
                &&& !rem.contains(root)
                &&& self.mset_of(tab) == pre.mset_of(tab).difference(rem)
                &&& self.arena().dom() == pre.arena().dom().difference(rem)
                &&& forall|x: ViewId|
                    #[trigger] rem.contains(x) && x != index ==> is_container(a0, x)
                        && children_of(a0, x).len() == 1 && rem.contains(children_of(a0, x)[0])
                &&& forall|x: ViewId|
                    #[trigger] rem.contains(x) ==> rem.contains(parent_of(a0, x)) || x == gtc
                &&& gq == parent_of(a0, gtc)
                &&& !rem.contains(gq)
                &&& pre.mset_of(tab).contains(gq)
                &&& children_of(a0, gq).contains(gtc)
                &&& children_of(a0, gq).len() >= 2 || gq == root
                &&& children_of(self.arena(), gq) == remove_first(children_of(a0, gq), gtc)
                &&& is_container(self.arena(), gq)
                &&& layout_of(self.arena(), gq) == layout_of(a0, gq)
                &&& parent_of(self.arena(), gq) == parent_of(a0, gq)
                &&& forall|m: ViewId|
                    a0.dom().contains(m) && !rem.contains(m) && m != gq ==> node_same_shape(
                        self.arena()[m],
                        #[trigger] a0[m],
                    )
            });
        }
    }
}


} // verus!
