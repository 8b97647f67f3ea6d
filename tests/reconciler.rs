use ribir::reconciler::{Compose, Reconciler};
use ribir::widget::{Key, Kind, Props, RecursiveRow, Widget, WidgetHead, WidgetNode};

fn head(key: Option<u64>, props: Props) -> WidgetHead {
    WidgetHead { key: key.map(Key), props }
}

fn leaf(key: Option<u64>, tag: u64) -> Widget {
    Widget::Render(head(key, Props::Custom { tag, value: 0 }))
}

fn row(key: Option<u64>, children: Vec<Widget>) -> Widget {
    Widget::MultiChild(head(key, Props::Row), children)
}

fn app(child: Widget) -> Widget {
    Widget::Compose(head(None, Props::Custom { tag: 100, value: 0 }), Box::new(child))
}

/// Hands out prepared children, one per build, and counts builds per node.
struct Script {
    outputs: Vec<Widget>,
    calls: Vec<usize>,
}

impl Compose for Script {
    fn build(&mut self, id: usize, _node: &WidgetNode) -> Widget {
        self.calls.push(id);
        self.outputs.remove(0)
    }
}

fn script(outputs: Vec<Widget>) -> Script {
    Script { outputs, calls: Vec::new() }
}

fn child_renders(rc: &Reconciler, ids: &[usize]) -> Vec<usize> {
    ids.iter().map(|&w| rc.widget_to_render(w).unwrap()).collect()
}

#[test]
fn mount_binds_every_render_widget() {
    let rc = Reconciler::mount(&app(row(Some(0), vec![leaf(Some(1), 1), leaf(Some(2), 1)]))).unwrap();
    assert_eq!(rc.root_widget(), Some(0));
    assert_eq!(rc.widget_to_render(0), None);
    let row_id = rc.widget_children(0)[0];
    let r_row = rc.widget_to_render(row_id).unwrap();
    assert_eq!(rc.render_root(), Some(r_row));
    assert_eq!(rc.render_parent(r_row), None);
    let kids = rc.widget_children(row_id);
    assert_eq!(rc.render_children(r_row), child_renders(&rc, &kids));
    for k in kids {
        assert_eq!(rc.render_parent(rc.widget_to_render(k).unwrap()), Some(r_row));
    }
}

#[test]
fn repair_with_empty_queue_changes_nothing() {
    let mut rc = Reconciler::mount(&app(row(Some(0), vec![leaf(Some(1), 1)]))).unwrap();
    let before_children = rc.widget_children(1);
    let before_render = rc.widget_to_render(2);
    let mut s = script(vec![]);
    assert_eq!(rc.repair_tree(&mut s), Ok(vec![]));
    assert!(s.calls.is_empty());
    assert_eq!(rc.widget_children(1), before_children);
    assert_eq!(rc.widget_to_render(2), before_render);
    assert!(!rc.is_dirty(2));
}

#[test]
fn keyed_reorder_keeps_render_ids() {
    let mut rc = Reconciler::mount(&app(row(
        Some(0),
        vec![leaf(Some(10), 1), leaf(Some(11), 1), leaf(Some(12), 1)],
    )))
    .unwrap();
    let row_id = rc.widget_children(0)[0];
    let old = rc.widget_children(row_id);
    let (a, b, c) = (old[0], old[1], old[2]);
    let (ra, rb, rc_id) = (
        rc.widget_to_render(a).unwrap(),
        rc.widget_to_render(b).unwrap(),
        rc.widget_to_render(c).unwrap(),
    );
    let r_row0 = rc.widget_to_render(row_id).unwrap();
    let mut before = rc.render_descendants(r_row0);
    before.sort();
    assert!(rc.mark_needs_rebuild(0));
    let mut s = script(vec![row(
        Some(0),
        vec![leaf(Some(12), 1), leaf(Some(10), 1), leaf(Some(11), 1)],
    )]);
    assert_eq!(rc.repair_tree(&mut s), Ok(vec![0]));
    let mut after = rc.render_descendants(r_row0);
    after.sort();
    assert_eq!(before, after);
    assert_eq!(rc.widget_children(row_id), vec![c, a, b]);
    assert_eq!(rc.widget_to_render(a), Some(ra));
    assert_eq!(rc.widget_to_render(b), Some(rb));
    assert_eq!(rc.widget_to_render(c), Some(rc_id));
    let r_row = rc.widget_to_render(row_id).unwrap();
    assert_eq!(rc.render_children(r_row), vec![rc_id, ra, rb]);
    assert!(rc.is_dirty(a));
}

#[test]
fn unkeyed_children_are_recreated() {
    let mut rc = Reconciler::mount(&app(row(Some(0), vec![leaf(None, 1), leaf(None, 1), leaf(None, 1)]))).unwrap();
    let row_id = rc.widget_children(0)[0];
    let old = rc.widget_children(row_id);
    let old_renders = child_renders(&rc, &old);
    assert!(rc.mark_needs_rebuild(0));
    let mut s = script(vec![row(Some(0), vec![leaf(None, 1), leaf(None, 1), leaf(None, 1)])]);
    assert_eq!(rc.repair_tree(&mut s), Ok(vec![0]));
    let new = rc.widget_children(row_id);
    assert_eq!(new.len(), 3);
    let new_renders = child_renders(&rc, &new);
    for r in &new_renders {
        assert!(!old_renders.contains(r));
    }
    for w in old {
        assert!(!rc.is_widget_live(w));
        assert_eq!(rc.widget_to_render(w), None);
    }
    for r in old_renders {
        assert!(!rc.is_render_live(r));
    }
}

#[test]
fn leftover_keyed_child_is_removed() {
    let mut rc = Reconciler::mount(&app(row(Some(0), vec![leaf(Some(1), 1), leaf(Some(2), 1)]))).unwrap();
    let row_id = rc.widget_children(0)[0];
    let old = rc.widget_children(row_id);
    let (a, b) = (old[0], old[1]);
    let ra = rc.widget_to_render(a).unwrap();
    let rb = rc.widget_to_render(b).unwrap();
    assert!(rc.mark_needs_rebuild(0));
    let mut s = script(vec![row(Some(0), vec![leaf(Some(1), 1)])]);
    assert_eq!(rc.repair_tree(&mut s), Ok(vec![0]));
    assert_eq!(rc.widget_children(row_id), vec![a]);
    assert_eq!(rc.widget_to_render(a), Some(ra));
    assert!(!rc.is_widget_live(b));
    assert!(!rc.is_render_live(rb));
    assert_eq!(rc.widget_to_render(b), None);
    assert_eq!(rc.render_to_widget(rb), None);
    let r_row = rc.widget_to_render(row_id).unwrap();
    assert_eq!(rc.render_children(r_row), vec![ra]);
}

#[test]
fn only_topmost_of_three_is_built() {
    let y = Widget::Compose(head(Some(7), Props::Custom { tag: 9, value: 0 }), Box::new(leaf(Some(8), 1)));
    let x2 = Widget::Compose(head(Some(6), Props::Custom { tag: 8, value: 0 }), Box::new(row(Some(5), vec![y])));
    let mut rc = Reconciler::mount(&app(row(Some(0), vec![x2]))).unwrap();
    let row_id = rc.widget_children(0)[0];
    let x2_id = rc.widget_children(row_id)[0];
    let inner_row = rc.widget_children(x2_id)[0];
    let y_id = rc.widget_children(inner_row)[0];
    assert!(rc.mark_needs_rebuild(y_id));
    assert!(rc.mark_needs_rebuild(x2_id));
    assert!(rc.mark_needs_rebuild(0));
    let y2 = Widget::Compose(head(Some(7), Props::Custom { tag: 9, value: 0 }), Box::new(leaf(Some(8), 1)));
    let x22 = Widget::Compose(head(Some(6), Props::Custom { tag: 8, value: 0 }), Box::new(row(Some(5), vec![y2])));
    let mut s = script(vec![row(Some(0), vec![x22])]);
    assert_eq!(rc.repair_tree(&mut s), Ok(vec![0]));
    assert_eq!(s.calls, vec![0]);
    assert!(!rc.is_waiting(x2_id));
    assert!(!rc.is_waiting(y_id));
}

#[test]
fn ancestor_rebuild_subsumes_descendant() {
    let inner = Widget::Compose(head(Some(5), Props::Custom { tag: 7, value: 0 }), Box::new(leaf(Some(6), 1)));
    let mut rc = Reconciler::mount(&app(row(Some(0), vec![inner]))).unwrap();
    let row_id = rc.widget_children(0)[0];
    let y = rc.widget_children(row_id)[0];
    assert_eq!(rc.widget(y).unwrap().kind, Kind::Compose);
    assert!(rc.mark_needs_rebuild(y));
    assert!(rc.mark_needs_rebuild(0));
    let inner2 = Widget::Compose(head(Some(5), Props::Custom { tag: 7, value: 1 }), Box::new(leaf(Some(6), 1)));
    let mut s = script(vec![row(Some(0), vec![inner2])]);
    assert_eq!(rc.repair_tree(&mut s), Ok(vec![0]));
    assert_eq!(s.calls, vec![0]);
    assert!(!rc.is_waiting(y));
    assert!(!rc.is_waiting(0));
    assert!(rc.is_widget_live(y));
}

#[test]
fn type_change_rebuilds_subtree() {
    let mut rc = Reconciler::mount(&app(row(Some(0), vec![leaf(Some(1), 1)]))).unwrap();
    let row_id = rc.widget_children(0)[0];
    let a = rc.widget_children(row_id)[0];
    let ra = rc.widget_to_render(a).unwrap();
    assert!(rc.mark_needs_rebuild(0));
    let mut s = script(vec![row(Some(0), vec![leaf(Some(1), 2)])]);
    assert_eq!(rc.repair_tree(&mut s), Ok(vec![0]));
    let kids = rc.widget_children(row_id);
    assert_eq!(kids.len(), 1);
    assert_ne!(kids[0], a);
    assert!(!rc.is_widget_live(a));
    assert!(!rc.is_render_live(ra));
    assert_eq!(rc.widget(kids[0]).unwrap().props, Props::Custom { tag: 2, value: 0 });
}

#[test]
fn changed_props_mark_layout() {
    let mut rc = Reconciler::mount(&app(row(Some(0), vec![leaf(Some(1), 1)]))).unwrap();
    let row_id = rc.widget_children(0)[0];
    let a = rc.widget_children(row_id)[0];
    let ra = rc.widget_to_render(a).unwrap();
    assert!(rc.mark_needs_rebuild(0));
    let mut s = script(vec![row(
        Some(0),
        vec![Widget::Render(head(Some(1), Props::Custom { tag: 1, value: 9 }))],
    )]);
    assert_eq!(rc.repair_tree(&mut s), Ok(vec![0]));
    assert_eq!(rc.widget_to_render(a), Some(ra));
    assert_eq!(rc.render_object(ra).unwrap().props, Props::Custom { tag: 1, value: 9 });
    assert!(rc.needs_layout(ra));
}

#[test]
fn drop_subtree_purges_everything() {
    let mut rc = Reconciler::mount(&app(row(
        Some(0),
        vec![row(Some(1), vec![leaf(None, 1), leaf(None, 1)]), leaf(Some(2), 1)],
    )))
    .unwrap();
    let row_id = rc.widget_children(0)[0];
    let sub = rc.widget_children(row_id)[0];
    let nodes = rc.widget_descendants(sub);
    assert_eq!(nodes.len(), 3);
    let renders = child_renders(&rc, &nodes);
    rc.drop_subtree(sub);
    for w in &nodes {
        assert!(!rc.is_widget_live(*w));
        assert_eq!(rc.widget_to_render(*w), None);
        assert!(!rc.is_dirty(*w));
        assert!(!rc.is_waiting(*w));
    }
    for r in renders {
        assert!(!rc.is_render_live(r));
        assert_eq!(rc.render_to_widget(r), None);
    }
    assert_eq!(rc.widget_children(row_id).len(), 1);
    let r_row = rc.widget_to_render(row_id).unwrap();
    assert_eq!(rc.render_children(r_row).len(), 1);
}

#[test]
fn drop_of_root_empties_relationship() {
    let mut rc = Reconciler::mount(&app(row(Some(0), vec![leaf(None, 1)]))).unwrap();
    assert!(!rc.relationship_is_empty());
    rc.drop_subtree(0);
    assert!(rc.relationship_is_empty());
}

#[test]
fn mark_needs_rebuild_refuses_render_widgets() {
    let mut rc = Reconciler::mount(&app(row(Some(0), vec![leaf(None, 1)]))).unwrap();
    assert!(!rc.mark_needs_rebuild(1));
    assert!(!rc.mark_needs_rebuild(99));
    assert!(!rc.is_waiting(1));
}

fn shape_of_render(rc: &Reconciler, r: usize, depth: usize, out: &mut Vec<(usize, Props)>) {
    out.push((depth, rc.render_object(r).unwrap().props));
    for c in rc.render_children(r) {
        shape_of_render(rc, c, depth + 1, out);
    }
}

fn shape_of_widgets(rc: &Reconciler, w: usize, depth: usize, out: &mut Vec<(usize, Props)>) {
    let node = rc.widget(w).unwrap();
    let d = if node.kind == Kind::Compose {
        depth
    } else {
        out.push((depth, node.props));
        depth + 1
    };
    for c in rc.widget_children(w) {
        shape_of_widgets(rc, c, d, out);
    }
}

#[test]
fn recursive_row_render_tree_mirrors_widgets() {
    let root = RecursiveRow { width: 3, depth: 3 }.into_widget();
    let rc = Reconciler::mount(&root).unwrap();
    let r_root = rc.render_root().unwrap();
    assert_eq!(rc.render_object(r_root).unwrap().props, Props::Row);
    let mut rendered = Vec::new();
    shape_of_render(&rc, r_root, 0, &mut rendered);
    let mut widgets = Vec::new();
    shape_of_widgets(&rc, 0, 0, &mut widgets);
    assert_eq!(rendered, widgets);
    assert_eq!(rendered.len(), 1 + 3 + 9 + 27);
    assert_eq!(rendered.iter().filter(|(d, p)| *d == 3 && *p == Props::Text).count(), 27);
    assert_eq!(rendered.iter().filter(|(_, p)| *p == Props::Row).count(), 13);
    assert_eq!(rc.render_descendants(r_root).len(), 40);
    let leaf_render = rc.render_descendants(r_root).into_iter().find(|&r| rc.render_children(r).is_empty()).unwrap();
    assert_eq!(rc.render_ancestors(leaf_render).len(), 4);
    assert_eq!(*rc.render_ancestors(leaf_render).last().unwrap(), r_root);
}

#[test]
fn widget_count_matches_size() {
    let root = RecursiveRow { width: 3, depth: 3 }.into_widget();
    // compositions: 1 + 3 + 9; rows: 1 + 3 + 9; texts: 27
    assert_eq!(root.count(), 13 + 13 + 27);
    assert_eq!(leaf(None, 1).count(), 1);
}

#[test]
fn ancestors_run_to_the_root() {
    let rc = Reconciler::mount(&app(row(Some(0), vec![leaf(None, 1)]))).unwrap();
    assert_eq!(rc.widget_ancestors(2), vec![2, 1, 0]);
    assert_eq!(rc.widget_first_child(1), Some(2));
    assert_eq!(rc.widget_parent(2), Some(1));
}

#[test]
fn siblings_follow_child_order() {
    let rc = Reconciler::mount(&app(row(Some(0), vec![leaf(None, 1), leaf(None, 2), leaf(None, 3)]))).unwrap();
    let kids = rc.widget_children(1);
    assert_eq!(rc.widget_next_sibling(kids[0]), Some(kids[1]));
    assert_eq!(rc.widget_next_sibling(kids[1]), Some(kids[2]));
    assert_eq!(rc.widget_next_sibling(kids[2]), None);
    assert_eq!(rc.widget_next_sibling(0), None);
}
