use pane_tree::geom::Rect;
use pane_tree::node::{Direction, DocumentId, GutterConfig, Layout, Pane};
use pane_tree::tabs::Tabs;

fn fresh_pane() -> Pane {
    Pane::new(DocumentId::default(), GutterConfig::default())
}

#[test]
fn find_split_in_direction() {
    let mut tabs = Tabs::new(Rect { x: 0, y: 0, width: 180, height: 80 });
    let tab = tabs.active_tab();
    let mut view = fresh_pane();
    view.area = Rect::new(0, 0, 180, 80);
    tabs.insert(tab, view);

    let l0 = tabs.get_focused_view_for_tab(tab);
    let view = fresh_pane();
    tabs.split(tab, view, Layout::Vertical);
    let r0 = tabs.get_focused_view_for_tab(tab);

    tabs.set_focused_view(tab, l0);
    let view = fresh_pane();
    tabs.split(tab, view, Layout::Horizontal);
    let l1 = tabs.get_focused_view_for_tab(tab);

    tabs.set_focused_view(tab, l0);
    let view = fresh_pane();
    tabs.split(tab, view, Layout::Vertical);

    // Tree in test
    // | L0  | L2 |    |
    // |    L1    | R0 |
    let l2 = tabs.get_focused_view_for_tab(tab);
    assert_eq!(Some(l0), tabs.find_split_in_direction(tab, l2, Direction::Left));
    assert_eq!(Some(l1), tabs.find_split_in_direction(tab, l2, Direction::Down));
    assert_eq!(Some(r0), tabs.find_split_in_direction(tab, l2, Direction::Right));
    assert_eq!(None, tabs.find_split_in_direction(tab, l2, Direction::Up));

    tabs.set_focused_view(tab, l1);
    assert_eq!(None, tabs.find_split_in_direction(tab, l1, Direction::Left));
    assert_eq!(None, tabs.find_split_in_direction(tab, l1, Direction::Down));
    assert_eq!(Some(r0), tabs.find_split_in_direction(tab, l1, Direction::Right));
    assert_eq!(Some(l0), tabs.find_split_in_direction(tab, l1, Direction::Up));

    tabs.set_focused_view(tab, l0);
    assert_eq!(None, tabs.find_split_in_direction(tab, l0, Direction::Left));
    assert_eq!(Some(l1), tabs.find_split_in_direction(tab, l0, Direction::Down));
    assert_eq!(Some(l2), tabs.find_split_in_direction(tab, l0, Direction::Right));
    assert_eq!(None, tabs.find_split_in_direction(tab, l0, Direction::Up));

    tabs.set_focused_view(tab, r0);
    assert_eq!(Some(l2), tabs.find_split_in_direction(tab, r0, Direction::Left));
    assert_eq!(None, tabs.find_split_in_direction(tab, r0, Direction::Down));
    assert_eq!(None, tabs.find_split_in_direction(tab, r0, Direction::Right));
    assert_eq!(None, tabs.find_split_in_direction(tab, r0, Direction::Up));
}

#[test]
fn swap_split_in_direction() {
    let mut tabs = Tabs::new(Rect { x: 0, y: 0, width: 180, height: 80 });
    let tab = tabs.active_tab();

    let doc_l0 = DocumentId::default();
    let mut view = Pane::new(doc_l0, GutterConfig::default());
    view.area = Rect::new(0, 0, 180, 80);
    tabs.insert(tab, view);
    let l0 = tabs.get_focused_view_for_tab(tab);

    let doc_r0 = DocumentId::default();
    let view = Pane::new(doc_r0, GutterConfig::default());
    tabs.split(tab, view, Layout::Vertical);
    let r0 = tabs.get_focused_view_for_tab(tab);

    tabs.set_focused_view(tab, l0);

    let doc_l1 = DocumentId::default();
    let view = Pane::new(doc_l1, GutterConfig::default());
    tabs.split(tab, view, Layout::Horizontal);
    let l1 = tabs.get_focused_view_for_tab(tab);
    tabs.set_focused_view(tab, l0);

    let doc_l2 = DocumentId::default();
    let view = Pane::new(doc_l2, GutterConfig::default());
    tabs.split(tab, view, Layout::Vertical);
    let l2 = tabs.get_focused_view_for_tab(tab);

    // Views in test
    // | L0  | L2 |    |
    // |    L1    | R0 |

    // Document IDs in test
    // | l0  | l2 |    |
    // |    l1    | r0 |

    let doc_id = |tabs: &Tabs, view_id| tabs.try_get(view_id).map(|v| v.doc);

    tabs.set_focused_view(tab, l0);
    // `*` marks the view in focus from view table (here L0)
    // | l0*  | l2 |    |
    // |    l1     | r0 |
    tabs.swap_split_in_direction(tab, Direction::Down);
    // | l1   | l2 |    |
    // |    l0*    | r0 |
    assert_eq!(tabs.get_focused_view_for_tab(tab), l0);
    assert_eq!(doc_id(&tabs, l0), Some(doc_l1));
    assert_eq!(doc_id(&tabs, l1), Some(doc_l0));
    assert_eq!(doc_id(&tabs, l2), Some(doc_l2));
    assert_eq!(doc_id(&tabs, r0), Some(doc_r0));

    tabs.swap_split_in_direction(tab, Direction::Right);

    // | l1  | l2 |     |
    // |    r0    | l0* |
    assert_eq!(tabs.get_focused_view_for_tab(tab), l0);
    assert_eq!(doc_id(&tabs, l0), Some(doc_l1));
    assert_eq!(doc_id(&tabs, l1), Some(doc_r0));
    assert_eq!(doc_id(&tabs, l2), Some(doc_l2));
    assert_eq!(doc_id(&tabs, r0), Some(doc_l0));

    // cannot swap, nothing changes
    tabs.swap_split_in_direction(tab, Direction::Up);
    // | l1  | l2 |     |
    // |    r0    | l0* |
    assert_eq!(tabs.get_focused_view_for_tab(tab), l0);
    assert_eq!(doc_id(&tabs, l0), Some(doc_l1));
    assert_eq!(doc_id(&tabs, l1), Some(doc_r0));
    assert_eq!(doc_id(&tabs, l2), Some(doc_l2));
    assert_eq!(doc_id(&tabs, r0), Some(doc_l0));

    // cannot swap, nothing changes
    tabs.swap_split_in_direction(tab, Direction::Down);
    // | l1  | l2 |     |
    // |    r0    | l0* |
    assert_eq!(tabs.get_focused_view_for_tab(tab), l0);
    assert_eq!(doc_id(&tabs, l0), Some(doc_l1));
    assert_eq!(doc_id(&tabs, l1), Some(doc_r0));
    assert_eq!(doc_id(&tabs, l2), Some(doc_l2));
    assert_eq!(doc_id(&tabs, r0), Some(doc_l0));

    tabs.set_focused_view(tab, l2);
    // | l1  | l2* |    |
    // |    r0     | l0 |

    tabs.swap_split_in_direction(tab, Direction::Down);
    // | l1  | r0  |    |
    // |    l2*    | l0 |
    assert_eq!(tabs.get_focused_view_for_tab(tab), l2);
    assert_eq!(doc_id(&tabs, l0), Some(doc_l1));
    assert_eq!(doc_id(&tabs, l1), Some(doc_l2));
    assert_eq!(doc_id(&tabs, l2), Some(doc_r0));
    assert_eq!(doc_id(&tabs, r0), Some(doc_l0));

    tabs.swap_split_in_direction(tab, Direction::Up);
    // | l2* | r0 |    |
    // |    l1    | l0 |
    assert_eq!(tabs.get_focused_view_for_tab(tab), l2);
    assert_eq!(doc_id(&tabs, l0), Some(doc_l2));
    assert_eq!(doc_id(&tabs, l1), Some(doc_l1));
    assert_eq!(doc_id(&tabs, l2), Some(doc_r0));
    assert_eq!(doc_id(&tabs, r0), Some(doc_l0));
}

#[test]
fn double_swap_restores_arrangement() {
    let mut tabs = Tabs::new(Rect { x: 0, y: 0, width: 180, height: 80 });
    let tab = tabs.active_tab();
    let mut view = fresh_pane();
    view.area = Rect::new(0, 0, 180, 80);
    tabs.insert(tab, view);
    let a = tabs.get_focused_view_for_tab(tab);
    tabs.split(tab, fresh_pane(), Layout::Vertical);
    let b = tabs.get_focused_view_for_tab(tab);

    tabs.set_focused_view(tab, a);
    let a_area = tabs.get(a).area;
    let b_area = tabs.get(b).area;

    assert_eq!(tabs.swap_split_in_direction(tab, Direction::Right), Some(()));
    assert_eq!(tabs.get(a).area, b_area);
    assert_eq!(tabs.get(b).area, a_area);

    assert_eq!(tabs.swap_split_in_direction(tab, Direction::Left), Some(()));
    assert_eq!(tabs.get(a).area, a_area);
    assert_eq!(tabs.get(b).area, b_area);
}

#[test]
fn next_then_prev_returns_to_focus() {
    let mut tabs = Tabs::new(Rect { x: 0, y: 0, width: 180, height: 80 });
    let tab = tabs.active_tab();
    let mut view = fresh_pane();
    view.area = Rect::new(0, 0, 180, 80);
    tabs.insert(tab, view);
    let a = tabs.get_focused_view_for_tab(tab);
    tabs.split(tab, fresh_pane(), Layout::Vertical);
    tabs.split(tab, fresh_pane(), Layout::Horizontal);

    tabs.set_focused_view(tab, a);
    let n = tabs.next(tab);
    assert_ne!(n, a);
    tabs.set_focused_view(tab, n);
    let back = tabs.prev(tab);
    assert_eq!(back, a);

    // and the other way round
    let p = tabs.prev(tab);
    tabs.set_focused_view(tab, p);
    let forward = tabs.next(tab);
    assert_eq!(forward, n);
}
