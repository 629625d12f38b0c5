//! A pane/split layout core for a screen-oriented editor.
//!
//! A workspace set owns a flat arena of tree nodes (leaf panes and split
//! containers) shared by any number of tab workspaces.  Each workspace is a
//! tree of containers over a subset of the arena, with a focused pane, a
//! bounding rectangle, and operations to insert, split, remove, resize,
//! transpose and spatially navigate panes.  The arena and the per-workspace
//! member bookkeeping are backed by the `slotmap` crate behind a small
//! trusted layer; everything above that layer is verified.

#![allow(deprecated)]

pub mod chains;
pub mod edit;
pub mod geom;
pub mod ids;
pub mod nav;
pub mod node;
pub mod solve;
pub mod store;
pub mod tabs;
pub mod tree;
