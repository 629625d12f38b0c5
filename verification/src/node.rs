//! The entity model: panes (views), split containers, and arena nodes.

use vstd::prelude::*;
use crate::geom::Rect;
use crate::ids::ViewId;
use crate::ids::null_key;

verus! {

/// The subdivision direction of a container's children.
#[derive(Debug, Clone, Copy, PartialEq, Eq, Structural)]
pub enum Layout {
    Horizontal,
    Vertical,
}

/// A spatial direction for focus movement and swapping.
#[derive(Debug, Clone, Copy, PartialEq, Eq, Structural)]
pub enum Direction {
    Up,
    Down,
    Left,
    Right,
}

/// Identity of the document a pane shows; owned by the caller, compared only.
#[derive(Debug, Clone, Copy, PartialEq, Eq, Structural, Default)]
pub struct DocumentId(pub u64);

impl DocumentId {
    pub fn new(value: u64) -> (r: DocumentId)
        ensures
            r.0 == value,
    {
        DocumentId(value)
    }
}

/// Caller-side pane decoration settings; carried, never read by this core.
#[derive(Debug, Clone, Copy, PartialEq, Eq, Structural, Default)]
pub struct GutterConfig {}

impl GutterConfig {
    pub fn new() -> (r: GutterConfig)
        ensures
            r == (GutterConfig {  }),
    {
        GutterConfig {  }
    }
}

/// A leaf pane: a view onto a document, with its on-screen rectangle.
#[derive(Debug, Clone, Copy)]
pub struct Pane {
    /// The pane's own arena identifier, set when it is linked into a tree.
    pub id: ViewId,
    /// The document this pane shows.
    pub doc: DocumentId,
    /// The rectangle the pane is rendered at.
    pub area: Rect,
}

impl Pane {
    pub fn new(doc: DocumentId, _gutters: GutterConfig) -> (r: Pane)
        ensures
            r.doc == doc,
            r.area == (Rect { x: 0, y: 0, width: 0, height: 0 }),
    {
        Pane { id: null_key(), doc, area: Rect::default() }
    }
}

/// An internal node: an ordered run of children split along one axis.
#[derive(Debug)]
pub struct Container {
    pub layout: Layout,
    pub children: Vec<ViewId>,
    pub area: Rect,
}

impl Container {
    pub fn new(layout: Layout) -> (r: Container)
        ensures
            r.layout == layout,
            r.children@ == Seq::<ViewId>::empty(),
            r.area == (Rect { x: 0, y: 0, width: 0, height: 0 }),
    {
        Container { layout, children: Vec::new(), area: Rect::default() }
    }
}

impl Default for Container {
    fn default() -> (r: Container)
        ensures
            r.layout == Layout::Vertical,
            r.children@ == Seq::<ViewId>::empty(),
            r.area == (Rect { x: 0, y: 0, width: 0, height: 0 }),
    {
        Container::new(Layout::Vertical)
    }
}

impl Clone for Container {
    fn clone(&self) -> (r: Self)
        ensures
            r.layout == self.layout,
            r.children@ == self.children@,
            r.area == self.area,
    {
        Container { layout: self.layout, children: copy_ids(&self.children), area: self.area }
    }
}

/// Copies a child list; identifiers are plain `Copy` values.
pub(crate) fn copy_ids(v: &Vec<ViewId>) -> (r: Vec<ViewId>)
    ensures
        r@ == v@,
{
    let mut r: Vec<ViewId> = Vec::new();
    let mut i: usize = 0;
    while i < v.len()
        invariant
            i <= v.len(),
            r@ == v@.subrange(0, i as int),
        decreases v.len() - i,
    {
        r.push(v[i]);
        proof {
            assert(r@ == v@.subrange(0, i + 1 as int));
        }
        i = i + 1;
    }
    proof {
        assert(v@.subrange(0, v@.len() as int) == v@);
    }
    r
}

/// What one arena node holds: a leaf pane or a split container.
#[derive(Debug)]
pub enum Content {
    Pane(Pane),
    Container(Container),
}

/// Contents that agree on every observable field, child order included.
pub open spec fn content_eq(c1: Content, c2: Content) -> bool {
    match (c1, c2) {
        (Content::Pane(v1), Content::Pane(v2)) => v1 == v2,
        (Content::Container(k1), Content::Container(k2)) => {
            &&& k1.layout == k2.layout
            &&& k1.children@ == k2.children@
            &&& k1.area == k2.area
        },
        _ => false,
    }
}

/// Nodes that agree on every observable field, child order included.
pub open spec fn node_eq(n1: Node, n2: Node) -> bool {
    &&& n1.parent == n2.parent
    &&& content_eq(n1.content, n2.content)
}

impl Clone for Content {
    fn clone(&self) -> (r: Self)
        ensures
            content_eq(r, *self),
    {
        match self {
            Content::Pane(v) => Content::Pane(*v),
            Content::Container(c) => Content::Container(c.clone()),
        }
    }
}

/// One arena node: its parent link and its content.
///
/// The root of each workspace tree is its own parent; every other node's
/// parent is the container whose child list names it.
#[derive(Debug)]
pub struct Node {
    pub parent: ViewId,
    pub content: Content,
}

impl Node {
    pub fn container(layout: Layout) -> (r: Self)
        ensures
            r.content matches Content::Container(c) && c.layout == layout
                && c.children@ == Seq::<ViewId>::empty()
                && c.area == (Rect { x: 0, y: 0, width: 0, height: 0 }),
    {
        Node { parent: null_key(), content: Content::Container(Container::new(layout)) }
    }

    pub fn view(view: Pane) -> (r: Self)
        ensures
            r.content matches Content::Pane(v) && v == view,
    {
        Node { parent: null_key(), content: Content::Pane(view) }
    }
}

impl Clone for Node {
    fn clone(&self) -> (r: Self)
        ensures
            node_eq(r, *self),
    {
        Node { parent: self.parent, content: self.content.clone() }
    }
}

// Spec-level readers over an arena of nodes.

pub open spec fn is_container(a: Map<ViewId, Node>, id: ViewId) -> bool {
    &&& a.dom().contains(id)
    &&& a[id].content is Container
}

pub open spec fn is_pane(a: Map<ViewId, Node>, id: ViewId) -> bool {
    &&& a.dom().contains(id)
    &&& a[id].content is Pane
}

pub open spec fn parent_of(a: Map<ViewId, Node>, id: ViewId) -> ViewId {
    a[id].parent
}

pub open spec fn container_of(a: Map<ViewId, Node>, id: ViewId) -> Container
    recommends
        is_container(a, id),
{
    a[id].content->Container_0
}

pub open spec fn pane_of(a: Map<ViewId, Node>, id: ViewId) -> Pane
    recommends
        is_pane(a, id),
{
    a[id].content->Pane_0
}

pub open spec fn children_of(a: Map<ViewId, Node>, id: ViewId) -> Seq<ViewId>
    recommends
        is_container(a, id),
{
    container_of(a, id).children@
}

pub open spec fn layout_of(a: Map<ViewId, Node>, id: ViewId) -> Layout
    recommends
        is_container(a, id),
{
    container_of(a, id).layout
}

/// The rectangle stored on a node, whichever variant it holds.
pub open spec fn area_of(a: Map<ViewId, Node>, id: ViewId) -> Rect {
    match a[id].content {
        Content::Pane(v) => v.area,
        Content::Container(c) => c.area,
    }
}

/// Two nodes whose contents agree on everything but the stored rectangle;
/// the parent link may differ.
pub open spec fn node_same_content(n1: Node, n2: Node) -> bool {
    match (n1.content, n2.content) {
        (Content::Pane(v1), Content::Pane(v2)) => v1.id == v2.id && v1.doc == v2.doc,
        (Content::Container(c1), Content::Container(c2)) => {
            c1.layout == c2.layout && c1.children@ == c2.children@
        },
        _ => false,
    }
}

/// Two nodes that agree on everything but their stored rectangles.
pub open spec fn node_same_shape(n1: Node, n2: Node) -> bool {
    &&& n1.parent == n2.parent
    &&& match (n1.content, n2.content) {
        (Content::Pane(v1), Content::Pane(v2)) => v1.id == v2.id && v1.doc == v2.doc,
        (Content::Container(c1), Content::Container(c2)) => {
            c1.layout == c2.layout && c1.children@ == c2.children@
        },
        _ => false,
    }
}

} // verus!
