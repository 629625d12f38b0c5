use pane_tree::geom::Rect;
use pane_tree::node::{DocumentId, GutterConfig, Layout, Pane};
use pane_tree::tabs::Tabs;

fn fresh_pane() -> Pane {
    Pane::new(DocumentId::default(), GutterConfig::default())
}

#[test]
fn closing_workspaces() {
    let mut tabs = Tabs::new(Rect { x: 0, y: 0, width: 180, height: 80 });
    let first = tabs.active_tab();

    // closing the only remaining workspace is refused
    assert_eq!(tabs.close_tab(first), None);
    assert_eq!(tabs.len(), 1);

    // closing one of two succeeds and activates the other
    let second = tabs.new_tab();
    assert_eq!(tabs.active_tab(), second);
    assert_eq!(tabs.close_tab(second), Some(first));
    assert_eq!(tabs.active_tab(), first);
    assert_eq!(tabs.len(), 1);
}

#[test]
fn removing_sole_child_cascades() {
    let mut tabs = Tabs::new(Rect { x: 0, y: 0, width: 180, height: 80 });
    let tab = tabs.active_tab();
    let mut view = fresh_pane();
    view.area = Rect::new(0, 0, 180, 80);
    tabs.insert(tab, view);
    let a = tabs.get_focused_view_for_tab(tab);
    // a horizontal split interposes a fresh container holding both panes
    tabs.split(tab, fresh_pane(), Layout::Horizontal);
    let b = tabs.get_focused_view_for_tab(tab);

    tabs.remove(tab, b);
    assert!(!tabs.node_exists(b));
    assert_eq!(tabs.tab_contains(tab, a), Some(true));
    assert_eq!(tabs.get_focused_view_for_tab(tab), a);

    // removing the last pane leaves the emptied container to cascade away;
    // the root survives empty and takes the focus
    tabs.remove(tab, a);
    assert!(!tabs.node_exists(a));
    assert_eq!(tabs.tab_is_empty(tab), Some(true));
    assert!(tabs.all_empty());
    let root = tabs.get_focused_view_for_tab(tab);
    assert_eq!(tabs.tab_contains(tab, root), Some(true));
    assert_eq!(tabs.view_ids(tab).len(), 0);
}

#[test]
fn vertical_split_tiles_with_gap() {
    let mut tabs = Tabs::new(Rect { x: 0, y: 0, width: 180, height: 80 });
    let tab = tabs.active_tab();
    let mut view = fresh_pane();
    view.area = Rect::new(0, 0, 180, 80);
    tabs.insert(tab, view);
    let a = tabs.get_focused_view_for_tab(tab);
    assert_eq!(tabs.get(a).area, Rect::new(0, 0, 180, 80));

    tabs.split(tab, fresh_pane(), Layout::Vertical);
    let b = tabs.get_focused_view_for_tab(tab);
    // an even share of the width with a one-cell gap; the last child ends
    // exactly at the right edge
    assert_eq!(tabs.get(a).area, Rect::new(0, 0, 90, 80));
    assert_eq!(tabs.get(b).area, Rect::new(91, 0, 89, 80));
}

#[test]
fn horizontal_split_tiles_exactly() {
    let mut tabs = Tabs::new(Rect { x: 0, y: 0, width: 180, height: 81 });
    let tab = tabs.active_tab();
    let mut view = fresh_pane();
    view.area = Rect::new(0, 0, 180, 81);
    tabs.insert(tab, view);
    let a = tabs.get_focused_view_for_tab(tab);

    tabs.split(tab, fresh_pane(), Layout::Horizontal);
    let b = tabs.get_focused_view_for_tab(tab);
    // an even share of the height; the last child absorbs the remainder
    assert_eq!(tabs.get(a).area, Rect::new(0, 0, 180, 40));
    assert_eq!(tabs.get(b).area, Rect::new(0, 40, 180, 41));
}

#[test]
fn resize_reports_change() {
    let mut tabs = Tabs::new(Rect { x: 0, y: 0, width: 180, height: 80 });
    let tab = tabs.active_tab();
    let mut view = fresh_pane();
    view.area = Rect::new(0, 0, 180, 80);
    tabs.insert(tab, view);
    let a = tabs.get_focused_view_for_tab(tab);

    // the same rectangle is a no-op
    assert!(!tabs.resize_tab(tab, Rect::new(0, 0, 180, 80)));
    // a different rectangle is stored and relaid out
    assert!(tabs.resize_tab(tab, Rect::new(0, 0, 100, 50)));
    assert_eq!(tabs.area(tab), Rect::new(0, 0, 100, 50));
    assert_eq!(tabs.get(a).area, Rect::new(0, 0, 100, 50));
    // resizing everything reports whether anything changed
    assert!(tabs.resize(Rect::new(0, 0, 90, 40)));
    assert!(!tabs.resize(Rect::new(0, 0, 90, 40)));
}

#[test]
fn membership_follows_inserts_and_removes() {
    let mut tabs = Tabs::new(Rect { x: 0, y: 0, width: 180, height: 80 });
    let tab = tabs.active_tab();
    let mut view = fresh_pane();
    view.area = Rect::new(0, 0, 180, 80);
    tabs.insert(tab, view);
    let a = tabs.get_focused_view_for_tab(tab);
    tabs.insert(tab, fresh_pane());
    let b = tabs.get_focused_view_for_tab(tab);

    assert!(tabs.node_exists(a) && tabs.node_exists(b));
    assert_eq!(tabs.tab_contains(tab, a), Some(true));
    assert_eq!(tabs.view_ids(tab).len(), 2);
    let other = tabs.new_tab();
    assert_eq!(tabs.tab_contains(other, a), Some(false));

    tabs.remove(tab, b);
    assert!(!tabs.node_exists(b));
    assert_eq!(tabs.tab_contains(tab, b), Some(false));
    assert_eq!(tabs.view_ids(tab).len(), 1);
    assert_eq!(tabs.tab_views(tab).len(), 1);
    assert!(tabs.tab_views(tab)[0].1);
    assert_eq!(tabs.all_views().len(), 1);
}

#[test]
fn focus_cycles_between_workspaces() {
    let mut tabs = Tabs::new(Rect { x: 0, y: 0, width: 180, height: 80 });
    let t1 = tabs.active_tab();
    let t2 = tabs.new_tab();
    assert_eq!(tabs.active_tab(), t2);
    assert_eq!(tabs.focus_next(), t1);
    assert_eq!(tabs.focus_next(), t2);
    assert_eq!(tabs.focus_previous(), t1);
    assert_eq!(tabs.focus_previous(), t2);
    assert_eq!(tabs.tab_ids().len(), 2);
}

#[test]
fn transpose_flips_the_split_axis() {
    let mut tabs = Tabs::new(Rect { x: 0, y: 0, width: 180, height: 80 });
    let tab = tabs.active_tab();
    let mut view = fresh_pane();
    view.area = Rect::new(0, 0, 180, 80);
    tabs.insert(tab, view);
    let a = tabs.get_focused_view_for_tab(tab);
    tabs.split(tab, fresh_pane(), Layout::Vertical);
    let b = tabs.get_focused_view_for_tab(tab);
    assert_eq!(tabs.get(a).area, Rect::new(0, 0, 90, 80));

    // the root container flips from vertical to horizontal
    tabs.transpose(tab);
    assert_eq!(tabs.get(a).area, Rect::new(0, 0, 180, 40));
    assert_eq!(tabs.get(b).area, Rect::new(0, 40, 180, 40));
}

#[test]
fn pane_write_back() {
    let mut tabs = Tabs::new(Rect { x: 0, y: 0, width: 180, height: 80 });
    let tab = tabs.active_tab();
    let mut view = Pane::new(DocumentId::new(7), GutterConfig::default());
    view.area = Rect::new(0, 0, 180, 80);
    tabs.insert(tab, view);
    let a = tabs.get_focused_view_for_tab(tab);
    assert_eq!(tabs.node_count(), 2);

    // read a pane out, change it, and write it back in place
    let mut p = *tabs.get(a);
    assert_eq!(p.doc, DocumentId::new(7));
    p.doc = DocumentId::new(8);
    tabs.set_pane(a, p);
    assert_eq!(tabs.get(a).doc, DocumentId::new(8));
    assert_eq!(tabs.get(a).area, Rect::new(0, 0, 180, 80));
}
