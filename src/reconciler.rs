use vstd::prelude::*;

use crate::arena::Tree;
use crate::idset::IdSet;
use crate::relationship::Relationship;
use crate::widget::{create_render_object, Kind, RenderObject, Widget, WidgetNode};

verus! {

/// The render-capable widget nearest above `w`: its parent if that one
/// renders, else the one nearest above the parent.
pub open spec fn up_of(t: &Tree<WidgetNode>, w: int) -> Option<usize>
    decreases w,
{
    if 0 <= w < t.len() && t.parent@[w] is Some && t.parent@[w].unwrap() < w {
        let p = t.parent@[w].unwrap();
        if t.data@[p as int].renders() {
            Some(p)
        } else {
            up_of(t, p as int)
        }
    } else {
        None
    }
}

/// The render-capable widget that `w` stands for: `w` itself if it
/// renders, else the one its single built child stands for.
pub open spec fn down_of(t: &Tree<WidgetNode>, w: int) -> Option<usize>
    decreases t.len() - w,
{
    if !(0 <= w < t.len()) {
        None
    } else if t.data@[w].renders() {
        Some(w as usize)
    } else if t.children@[w]@.len() == 1 && t.children@[w]@[0] > w && t.children@[w]@[0] < t.len() {
        down_of(t, t.children@[w]@[0] as int)
    } else {
        None
    }
}

/// The subtree of `t` under `id` is the description `w`: each node holds
/// the value of its widget, and its children, in order, are the subtrees of
/// the widget's children.
#[verifier::opaque]
pub open spec fn shaped(t: &Tree<WidgetNode>, id: int, w: Widget) -> bool
    decreases w,
{
    &&& 0 <= id < t.len()
    &&& t.data@[id] == w.node()
    &&& match w {
        Widget::Render(_) => t.children@[id]@.len() == 0,
        Widget::Compose(_, c) => t.children@[id]@.len() == 1 && shaped(t, t.children@[id]@[0] as int, *c),
        Widget::SingleChild(_, c) => t.children@[id]@.len() == 1 && shaped(
            t,
            t.children@[id]@[0] as int,
            *c,
        ),
        Widget::MultiChild(_, cs) => t.children@[id]@.len() == cs@.len() && forall|i: int|
            0 <= i < cs@.len() ==> shaped(t, t.children@[id]@[i] as int, #[trigger] cs@[i]),
    }
}

/// Putting `shaped` together from its children.
pub proof fn lemma_shaped_one(t: &Tree<WidgetNode>, id: int, w: Widget)
    requires
        0 <= id < t.len(),
        t.data@[id] == w.node(),
        match w {
            Widget::Render(_) => t.children@[id]@.len() == 0,
            Widget::Compose(_, c) => t.children@[id]@.len() == 1 && shaped(t, t.children@[id]@[0] as int, *c),
            Widget::SingleChild(_, c) => t.children@[id]@.len() == 1 && shaped(
                t,
                t.children@[id]@[0] as int,
                *c,
            ),
            Widget::MultiChild(_, cs) => t.children@[id]@.len() == cs@.len() && forall|i: int|
                0 <= i < cs@.len() ==> shaped(t, t.children@[id]@[i] as int, #[trigger] cs@[i]),
        },
    ensures
        shaped(t, id, w),
{
    reveal(shaped);
}

/// `shaped` reads only the nodes from `id` on.
pub proof fn lemma_shaped_frame(t1: &Tree<WidgetNode>, t2: &Tree<WidgetNode>, id: int, w: Widget)
    requires
        t1.wf(),
        shaped(t1, id, w),
        t1.len() <= t2.len(),
        forall|i: int| id <= i < t1.len() ==> #[trigger] t2.data@[i] == t1.data@[i],
        forall|i: int| id <= i < t1.len() ==> #[trigger] t2.children@[i] == t1.children@[i],
    ensures
        shaped(t2, id, w),
    decreases w,
{
    reveal(shaped);
    assert(t2.data@[id] == t1.data@[id]);
    assert(t2.children@[id] == t1.children@[id]);
    match w {
        Widget::Render(_) => {},
        Widget::Compose(_, c) => {
            let c0 = t1.children@[id]@[0] as int;
            lemma_shaped_frame(t1, t2, c0, *c);
        },
        Widget::SingleChild(_, c) => {
            let c0 = t1.children@[id]@[0] as int;
            lemma_shaped_frame(t1, t2, c0, *c);
        },
        Widget::MultiChild(_, cs) => {
            assert forall|i: int| 0 <= i < cs@.len() implies shaped(t2, t2.children@[id]@[i] as int, #[trigger] cs@[i]) by {
                vstd::std_specs::vec::axiom_vec_index_decreases(cs, i);
                let ci = t1.children@[id]@[i] as int;
                lemma_shaped_frame(t1, t2, ci, cs@[i]);
            }
        },
    }
}

/// The kinds of the nodes of `t1` are those in `t2`, and so are the parent
/// links, but perhaps for node `x`.
pub open spec fn same_shape_but(t1: &Tree<WidgetNode>, t2: &Tree<WidgetNode>, x: int) -> bool {
    &&& t1.len() <= t2.len()
    &&& forall|i: int| 0 <= i < t1.len() && i != x ==> #[trigger] t2.parent@[i] == t1.parent@[i]
    &&& forall|i: int| 0 <= i < t1.len() ==> #[trigger] t2.data@[i].kind == t1.data@[i].kind
}

/// Outside the subtree of the one node whose parent link changed, the
/// nearest render-capable ancestor stays.
pub proof fn lemma_up_frame(t1: &Tree<WidgetNode>, t2: &Tree<WidgetNode>, x: int, y: int)
    requires
        same_shape_but(t1, t2, x),
        0 <= y < t1.len(),
        !t1.in_subtree(x, y),
    ensures
        up_of(t2, y) == up_of(t1, y),
        !t2.in_subtree(x, y),
    decreases y,
{
    assert(y != x);
    assert(t2.parent@[y] == t1.parent@[y]);
    if t1.parent@[y] is Some && t1.parent@[y].unwrap() < y {
        let p = t1.parent@[y].unwrap() as int;
        assert(t2.data@[p].kind == t1.data@[p].kind);
        lemma_up_frame(t1, t2, x, p);
    }
}

/// The nearest render-capable ancestor is an ancestor.
pub proof fn lemma_up_above(t: &Tree<WidgetNode>, w: int)
    requires
        up_of(t, w) is Some,
    ensures
        t.in_subtree(up_of(t, w).unwrap() as int, w),
        up_of(t, w).unwrap() < w,
        t.data@[up_of(t, w).unwrap() as int].renders(),
    decreases w,
{
    let p = t.parent@[w].unwrap();
    assert(t.in_subtree(p as int, p as int));
    assert(t.in_subtree(p as int, w));
    if !t.data@[p as int].renders() {
        lemma_up_above(t, p as int);
        t.lemma_subtree_trans(up_of(t, w).unwrap() as int, p as int, w);
    }
}

/// What `w` stands for lies in its subtree and renders.
pub proof fn lemma_down_below(t: &Tree<WidgetNode>, w: int)
    requires
        t.wf(),
        down_of(t, w) is Some,
    ensures
        t.in_subtree(w, down_of(t, w).unwrap() as int),
        (down_of(t, w).unwrap() as int) < t.len(),
        w <= down_of(t, w).unwrap(),
        t.data@[down_of(t, w).unwrap() as int].renders(),
        up_of(t, down_of(t, w).unwrap() as int) == up_of(t, w),
    decreases t.len() - w,
{
    if !t.data@[w].renders() {
        let c = t.children@[w]@[0] as int;
        assert(t.parent@[c] == Some(w as usize));
        assert(w < c < t.len());
        assert(t.in_subtree(w, w));
        lemma_down_below(t, c);
        let d = down_of(t, w).unwrap() as int;
        assert(t.in_subtree(w, c));
        t.lemma_subtree_trans(w, c, d);
    }
}

/// What a node stands for reads only the child lists at and below it.
pub proof fn lemma_down_frame(t1: &Tree<WidgetNode>, t2: &Tree<WidgetNode>, m: int, w: int)
    requires
        t1.len() == t2.len(),
        t1.data@ == t2.data@,
        forall|i: int| 0 <= i < t1.len() && i != m ==> #[trigger] t2.children@[i] == t1.children@[i],
        m < w,
    ensures
        down_of(t1, w) == down_of(t2, w),
    decreases t1.len() - w,
{
    if 0 <= w < t1.len() && !t1.data@[w].renders() {
        assert(t2.children@[w] == t1.children@[w]);
        if t1.children@[w]@.len() == 1 && t1.children@[w]@[0] > w && t1.children@[w]@[0] < t1.len() {
            lemma_down_frame(t1, t2, m, t1.children@[w]@[0] as int);
        }
    }
}

/// Ancestry of `y` stays while the parent links of its ancestors stay.
pub proof fn lemma_chain_frame(t1: &Tree<WidgetNode>, t2: &Tree<WidgetNode>, a: int, y: int)
    requires
        t1.len() <= t2.len(),
        0 <= y < t1.len(),
        forall|z: int| 0 <= z < t1.len() && t1.in_subtree(z, y) ==> #[trigger] t2.parent@[z] == t1.parent@[z],
        t1.in_subtree(a, y),
    ensures
        t2.in_subtree(a, y),
    decreases y,
{
    if y != a {
        assert(t1.in_subtree(y, y));
        let p = t1.parent@[y].unwrap() as int;
        assert forall|z: int| 0 <= z < t1.len() && t1.in_subtree(z, p) implies #[trigger] t2.parent@[z] == t1.parent@[z] by {
            assert(t1.in_subtree(p, y)) by {
                assert(t1.in_subtree(p, p));
            }
            t1.lemma_subtree_trans(z, p, y);
        }
        lemma_chain_frame(t1, t2, a, p);
    }
}

/// Conversely, no new ancestor appears above `y` while the parent links of
/// its ancestors stay.
pub proof fn lemma_chain_frame_back(t1: &Tree<WidgetNode>, t2: &Tree<WidgetNode>, a: int, y: int)
    requires
        t1.len() <= t2.len(),
        0 <= y < t1.len(),
        forall|z: int| 0 <= z < t1.len() && t1.in_subtree(z, y) ==> #[trigger] t2.parent@[z] == t1.parent@[z],
        t2.in_subtree(a, y),
    ensures
        t1.in_subtree(a, y),
    decreases y,
{
    if y != a {
        assert(t1.in_subtree(y, y));
        assert(t2.parent@[y] == t1.parent@[y]);
        let p = t1.parent@[y].unwrap() as int;
        assert(t1.in_subtree(p, y)) by {
            assert(t1.in_subtree(p, p));
        }
        assert forall|z: int| 0 <= z < t1.len() && t1.in_subtree(z, p) implies #[trigger] t2.parent@[z] == t1.parent@[z] by {
            t1.lemma_subtree_trans(z, p, y);
        }
        lemma_chain_frame_back(t1, t2, a, p);
    }
}

/// `y` stays under `c` while the parent links strictly below `c` on its
/// way up stay.
pub proof fn lemma_chain_frame_below(t1: &Tree<WidgetNode>, t2: &Tree<WidgetNode>, c: int, y: int)
    requires
        t1.len() <= t2.len(),
        0 <= y < t1.len(),
        forall|z: int|
            0 <= z < t1.len() && z != c && t1.in_subtree(c, z) && t1.in_subtree(z, y) ==> #[trigger] t2.parent@[z]
                == t1.parent@[z],
        t1.in_subtree(c, y),
    ensures
        t2.in_subtree(c, y),
    decreases y,
{
    if y != c {
        assert(t1.in_subtree(y, y));
        let p = t1.parent@[y].unwrap() as int;
        assert(t1.in_subtree(p, y)) by {
            assert(t1.in_subtree(p, p));
        }
        assert forall|z: int|
            0 <= z < t1.len() && z != c && t1.in_subtree(c, z) && t1.in_subtree(z, p) implies #[trigger] t2.parent@[z]
                == t1.parent@[z] by {
            t1.lemma_subtree_trans(z, p, y);
        }
        lemma_chain_frame_below(t1, t2, c, p);
    }
}

/// A node outside the subtree of `x` stays outside the subtree of any node
/// of that subtree while the links outside it stay.
pub proof fn lemma_outside_stable(t0: &Tree<WidgetNode>, t1: &Tree<WidgetNode>, x: int, c: int, y: int)
    requires
        t0.len() <= t1.len(),
        forall|z: int|
            0 <= z < t0.len() && !t0.in_subtree(x, z) ==> #[trigger] t1.parent@[z] == t0.parent@[z],
        t0.in_subtree(x, c),
        0 <= y < t0.len(),
        !t0.in_subtree(x, y),
    ensures
        !t1.in_subtree(c, y),
    decreases y,
{
    assert(t1.parent@[y] == t0.parent@[y]);
    if y != c && t1.parent@[y] is Some && t1.parent@[y].unwrap() < y {
        let p = t1.parent@[y].unwrap() as int;
        if t0.in_subtree(x, p) {
            assert(t0.in_subtree(x, y));
        }
        lemma_outside_stable(t0, t1, x, c, p);
    }
}

/// Builds the child of a composition from its current value: the work a
/// composition widget does when it is rebuilt. The child it returns is a
/// finished description, with the children of nested compositions in place.
pub trait Compose {
    fn build(&mut self, id: usize, node: &WidgetNode) -> Widget;
}

/// The arenas could not take the subtree that a rebuild produced; `size`
/// is its number of widgets (or `usize::MAX` if there were more).
#[derive(Clone, Copy, PartialEq, Eq, Structural, Debug)]
pub struct ArenaFull {
    pub size: usize,
}

/// A copy of a list of node indices.
pub fn copy_ids(v: &Vec<usize>) -> (c: Vec<usize>)
    ensures
        c@ == v@,
{
    let mut c: Vec<usize> = Vec::new();
    let mut i: usize = 0;
    while i < v.len()
        invariant
            i <= v@.len(),
            c@ == v@.subrange(0, i as int),
        decreases v@.len() - i,
    {
        c.push(v[i]);
        i += 1;
    }
    c
}

/// The widget tree, the render tree, the binding between them, and the
/// sets of nodes that wait for a rebuild or are marked dirty.
pub struct Reconciler {
    pub widgets: Tree<WidgetNode>,
    pub renders: Tree<RenderObject>,
    pub rel: Relationship,
    pub dirty_widgets: IdSet,
    pub wait_rebuilds: IdSet,
    pub dirty_layouts: IdSet,
    pub root: Option<usize>,
}

impl Reconciler {
    pub open spec fn renders_at(&self, w: int) -> bool {
        self.widgets.data@[w].renders()
    }

    pub open spec fn up(&self, w: int) -> Option<usize> {
        up_of(&self.widgets, w)
    }

    pub open spec fn down(&self, w: int) -> Option<usize> {
        down_of(&self.widgets, w)
    }

    /// Node `w`, if live and render-capable, is bound, and its render node
    /// hangs under the render node of its nearest render-capable ancestor.
    pub open spec fn mirror_at(&self, w: int) -> bool {
        self.widgets.is_live(w) && self.renders_at(w) ==> {
            &&& self.rel@.contains_key(w as usize)
            &&& match self.up(w) {
                Some(u) => self.rel@.contains_key(u) && self.renders.parent_of(
                    self.rel@[w as usize] as int,
                ) == Some(self.rel@[u]),
                None => self.renders.parent_of(self.rel@[w as usize] as int) is None,
            }
        }
    }

    /// The render tree mirrors the widget tree: every live render-capable
    /// widget is bound, and render parents follow widget ancestry.
    pub open spec fn mirror(&self) -> bool {
        forall|w: int| 0 <= w < self.widgets.len() ==> #[trigger] self.mirror_at(w)
    }

    /// The structural invariant that every operation keeps.
    pub open spec fn inv(&self) -> bool {
        &&& self.widgets.wf()
        &&& self.renders.wf()
        &&& self.rel.wf()
        &&& self.dirty_widgets.wf()
        &&& self.wait_rebuilds.wf()
        &&& self.dirty_layouts.wf()
        &&& forall|w: usize| #[trigger]
            self.rel@.contains_key(w) ==> self.widgets.is_live(w as int) && self.renders_at(w as int)
                && self.renders.is_live(self.rel@[w] as int)
        &&& forall|r: usize| #[trigger]
            self.renders.is_live(r as int) ==> self.rel.widget_of(r) is Some
        &&& forall|w: int|
            #![trigger self.widgets.children@[w]]
            self.widgets.is_live(w) && (self.widgets.data@[w].kind == Kind::Compose
                || self.widgets.data@[w].kind == Kind::SingleChild) ==> self.widgets.children@[w]@.len()
                <= 1
        &&& forall|w: usize| #[trigger]
            self.wait_rebuilds@.contains(w) ==> self.widgets.is_live(w as int)
                && self.widgets.data@[w as int].kind == Kind::Compose
        &&& forall|w: usize| #[trigger]
            self.dirty_widgets@.contains(w) ==> self.widgets.is_live(w as int)
        &&& forall|r: usize| #[trigger]
            self.dirty_layouts@.contains(r) ==> self.renders.is_live(r as int)
    }

    /// After a fresh subtree `cid` is hung under `id`, every node from `id`
    /// on still lies under `id`.
    proof fn lemma_grown_subtree(&self, before: &Reconciler, id: usize, cid: usize)
        requires
            self.widgets.wf(),
            id < cid,
            cid == before.widgets.len(),
            cid < self.widgets.len(),
            self.widgets.parent@[cid as int] == Some(id),
            before.widgets.same_parents(&self.widgets),
            forall|j: int|
                id <= j < before.widgets.len() ==> #[trigger] before.widgets.is_live(j)
                    && before.widgets.in_subtree(id as int, j),
            forall|j: int|
                0 <= j < before.widgets.len() ==> #[trigger] self.widgets.live@[j]
                    == before.widgets.live@[j],
            forall|i: int|
                cid <= i < self.widgets.len() ==> #[trigger] self.widgets.is_live(i)
                    && self.widgets.in_subtree(cid as int, i),
        ensures
            forall|j: int|
                id <= j < self.widgets.len() ==> #[trigger] self.widgets.is_live(j)
                    && self.widgets.in_subtree(id as int, j),
    {
        assert(self.widgets.in_subtree(id as int, id as int));
        assert(self.widgets.in_subtree(id as int, cid as int));
        assert forall|j: int| id <= j < self.widgets.len() implies #[trigger] self.widgets.is_live(j)
            && self.widgets.in_subtree(id as int, j) by {
            if j < cid {
                before.widgets.lemma_subtree_frame(&self.widgets, id as int, j);
                assert(before.widgets.is_live(j));
            } else {
                assert(self.widgets.is_live(j));
                assert(self.widgets.in_subtree(cid as int, j));
                self.widgets.lemma_subtree_trans(id as int, cid as int, j);
            }
        }
    }

    /// Node `p` may take one more child.
    pub open spec fn can_adopt(&self, p: usize) -> bool {
        &&& self.widgets.is_live(p as int)
        &&& (self.widgets.data@[p as int].kind == Kind::Compose || self.widgets.data@[p as int].kind
            == Kind::SingleChild) ==> self.widgets.children@[p as int]@.len() == 0
    }

    /// Adds the description `w` as a fresh subtree of widget nodes, as the
    /// last child of `parent` if there is one. No render node is made.
    fn inflate(&mut self, parent: Option<usize>, w: &Widget) -> (id: usize)
        requires
            old(self).inv(),
            old(self).widgets.len() + w.size() <= usize::MAX,
            parent matches Some(p) ==> old(self).can_adopt(p),
        ensures
            final(self).inv(),
            id == old(self).widgets.len(),
            final(self).widgets.len() == old(self).widgets.len() + w.size(),
            final(self).widgets.data@[id as int] == w.node(),
            shaped(&final(self).widgets, id as int, *w),
            final(self).widgets.parent@[id as int] == parent,
            forall|i: int|
                id <= i < final(self).widgets.len() ==> #[trigger] final(self).widgets.is_live(i)
                    && final(self).widgets.in_subtree(id as int, i),
            forall|i: int|
                id <= i < final(self).widgets.len() ==> #[trigger] final(self).widgets.in_subtree(id as int, i),
            old(self).widgets.same_parents(&final(self).widgets),
            forall|i: int|
                0 <= i < old(self).widgets.len() ==> #[trigger] final(self).widgets.data@[i]
                    == old(self).widgets.data@[i],
            forall|i: int|
                0 <= i < old(self).widgets.len() ==> #[trigger] final(self).widgets.live@[i]
                    == old(self).widgets.live@[i],
            forall|i: int|
                0 <= i < old(self).widgets.len() && Some(i as usize) != parent
                    ==> #[trigger] final(self).widgets.children@[i] == old(self).widgets.children@[i],
            parent matches Some(p) ==> final(self).widgets.children_of(p as int) == old(
                self,
            ).widgets.children_of(p as int).push(id),
            final(self).renders == old(self).renders,
            final(self).rel == old(self).rel,
            final(self).dirty_widgets == old(self).dirty_widgets,
            final(self).wait_rebuilds == old(self).wait_rebuilds,
            final(self).dirty_layouts == old(self).dirty_layouts,
            final(self).root == old(self).root,
        decreases w,
    {
        let node = w.to_node();
        let id = self.widgets.add_node(node);
        match parent {
            Some(p) => {
                self.widgets.append_child(p, id);
            },
            None => {},
        }
        proof {
            assert(self.widgets.in_subtree(id as int, id as int));
            assert forall|j: int|
                #![trigger self.widgets.children@[j]]
                self.widgets.is_live(j) && (self.widgets.data@[j].kind == Kind::Compose
                    || self.widgets.data@[j].kind == Kind::SingleChild) implies self.widgets.children@[j]@.len()
                    <= 1 by {
                if j < id && Some(j as usize) != parent {
                    assert(self.widgets.children@[j] == old(self).widgets.children@[j]);
                }
            }
        }
        match w {
            Widget::Compose(_, c) => {
                let ghost before = *self;
                let cid = self.inflate(Some(id), c);
                proof {
                    self.lemma_grown_subtree(&before, id, cid);
                    assert forall|i: int| id <= i < self.widgets.len() implies #[trigger] self.widgets.is_live(i)
                        && self.widgets.in_subtree(id as int, i) by {}
                    assert(self.widgets.children_of(id as int) =~= seq![cid]);
                    assert(self.widgets.children@[id as int]@[0] == cid);
                    lemma_shaped_one(&self.widgets, id as int, *w);
                }
            },
            Widget::SingleChild(_, c) => {
                let ghost before = *self;
                let cid = self.inflate(Some(id), c);
                proof {
                    self.lemma_grown_subtree(&before, id, cid);
                    assert forall|i: int| id <= i < self.widgets.len() implies #[trigger] self.widgets.is_live(i)
                        && self.widgets.in_subtree(id as int, i) by {}
                    assert(self.widgets.children_of(id as int) =~= seq![cid]);
                    assert(self.widgets.children@[id as int]@[0] == cid);
                    lemma_shaped_one(&self.widgets, id as int, *w);
                }
            },
            Widget::Render(_) => {
                proof {
                    assert(self.widgets.len() == id + 1);
                    assert(self.widgets.is_live(id as int));
                    assert forall|i: int| id <= i < self.widgets.len() implies #[trigger] self.widgets.is_live(i)
                        && self.widgets.in_subtree(id as int, i) by {
                        assert(i == id);
                    }
                    lemma_shaped_one(&self.widgets, id as int, *w);
                }
            },
            Widget::MultiChild(_, cs) => {
                proof {
                    assert forall|k: int| 0 <= k < cs@.len() implies #[trigger] decreases_to!(*w => cs@[k]) by {
                        vstd::std_specs::vec::axiom_vec_index_decreases(*cs, k);
                    }
                }
                let mut i: usize = 0;
                while i < cs.len()
                    invariant
                        forall|k: int| 0 <= k < cs@.len() ==> #[trigger] decreases_to!(*w => cs@[k]),
                        self.inv(),
                        i <= cs@.len(),
                        w.size() == 1 + crate::widget::sizes(cs@, cs@.len() as int),
                        old(self).widgets.len() + w.size() <= usize::MAX,
                        id == old(self).widgets.len(),
                        self.widgets.len() == id + 1 + crate::widget::sizes(cs@, i as int),
                        self.widgets.data@[id as int] == w.node(),
                        self.widgets.data@[id as int].kind == Kind::MultiChild,
                        *w == Widget::MultiChild(w.node_head(), *cs),
                        self.widgets.children_of(id as int).len() == i,
                        forall|k: int| 0 <= k < i ==> shaped(&self.widgets, self.widgets.children@[id as int]@[k] as int, #[trigger] cs@[k]),
                        self.widgets.parent@[id as int] == parent,
                        forall|j: int|
                            id <= j < self.widgets.len() ==> #[trigger] self.widgets.is_live(j)
                                && self.widgets.in_subtree(id as int, j),
                        old(self).widgets.same_parents(&self.widgets),
                        forall|j: int|
                            0 <= j < old(self).widgets.len() ==> #[trigger] self.widgets.data@[j]
                                == old(self).widgets.data@[j],
                        forall|j: int|
                            0 <= j < old(self).widgets.len() ==> #[trigger] self.widgets.live@[j]
                                == old(self).widgets.live@[j],
                        forall|j: int|
                            0 <= j < old(self).widgets.len() && Some(j as usize) != parent
                                ==> #[trigger] self.widgets.children@[j]
                                == old(self).widgets.children@[j],
                        parent matches Some(p) ==> self.widgets.children_of(p as int) == old(
                            self,
                        ).widgets.children_of(p as int).push(id),
                        self.renders == old(self).renders,
                        self.rel == old(self).rel,
                        self.dirty_widgets == old(self).dirty_widgets,
                        self.wait_rebuilds == old(self).wait_rebuilds,
                        self.dirty_layouts == old(self).dirty_layouts,
                        self.root == old(self).root,
                    decreases cs@.len() - i,
                {
                    proof {
                        crate::widget::lemma_sizes_mono(cs@, i + 1, cs@.len() as int);
                        assert(crate::widget::sizes(cs@, i + 1) == crate::widget::sizes(cs@, i as int)
                            + cs@[i as int].size());
                    }
                    let ghost before = *self;
                    let cid = self.inflate(Some(id), &cs[i]);
                    proof {
                        self.lemma_grown_subtree(&before, id, cid);
                        assert forall|k: int| 0 <= k < i + 1 implies shaped(&self.widgets, self.widgets.children@[id as int]@[k] as int, #[trigger] cs@[k]) by {
                            if k < i {
                                let ck = before.widgets.children@[id as int]@[k] as int;
                                assert(self.widgets.children@[id as int]@[k] as int == ck);
                                assert(id < ck);
                                assert forall|q: int| ck <= q < before.widgets.len() implies #[trigger] self.widgets.children@[q] == before.widgets.children@[q] by {
                                    assert(Some(q as usize) != Some(id));
                                }
                                lemma_shaped_frame(&before.widgets, &self.widgets, ck, cs@[k]);
                            } else {
                                assert(self.widgets.children@[id as int]@[k] == cid);
                            }
                        }
                    }
                    i += 1;
                }
                proof {
                    assert forall|i: int| id <= i < self.widgets.len() implies #[trigger] self.widgets.is_live(i)
                        && self.widgets.in_subtree(id as int, i) by {}
                    lemma_shaped_one(&self.widgets, id as int, *w);
                }
            },
        }
        proof {
            assert forall|i: int| id <= i < self.widgets.len() implies #[trigger] self.widgets.in_subtree(id as int, i) by {
                assert(self.widgets.is_live(i));
            }
        }
        id
    }

    /// Nodes from `root` to the end of the widget arena form the subtree of
    /// `root`, are live and have no render node yet; every node before
    /// `root` is mirrored, and the nearest render-capable ancestor of `root`
    /// is bound.
    pub open spec fn fresh_from(&self, root: usize) -> bool {
        &&& root < self.widgets.len()
        &&& forall|i: int|
            root <= i < self.widgets.len() ==> #[trigger] self.widgets.is_live(i)
                && self.widgets.in_subtree(root as int, i) && !self.rel@.contains_key(i as usize)
        &&& forall|i: int| 0 <= i < root ==> #[trigger] self.mirror_at(i)
    }

    /// Builds and binds a render node for every render-capable widget from
    /// `root` to the end of the widget arena, each under the render node of
    /// its nearest render-capable ancestor. Nodes are visited in index order,
    /// which puts ancestors before descendants and keeps the order of
    /// siblings that were created in order.
    pub fn construct_render_tree(&mut self, root: usize)
        requires
            old(self).inv(),
            old(self).fresh_from(root),
            old(self).renders.len() + old(self).widgets.len() < usize::MAX,
        ensures
            final(self).inv(),
            final(self).mirror(),
            final(self).widgets == old(self).widgets,
            final(self).dirty_widgets == old(self).dirty_widgets,
            final(self).wait_rebuilds == old(self).wait_rebuilds,
            final(self).dirty_layouts == old(self).dirty_layouts,
            final(self).root == old(self).root,
            old(self).renders.same_parents(&final(self).renders),
            final(self).renders.len() <= old(self).renders.len() + (old(self).widgets.len() - root),
            forall|i: int|
                0 <= i < old(self).renders.len() ==> #[trigger] final(self).renders.live@[i]
                    == old(self).renders.live@[i],
            forall|w: usize| #[trigger]
                old(self).rel@.contains_key(w) ==> final(self).rel@.contains_key(w)
                    && final(self).rel@[w] == old(self).rel@[w],
            forall|w: usize| #[trigger]
                final(self).rel@.contains_key(w) && !old(self).rel@.contains_key(w) ==> root <= w
                    && final(self).rel@[w] >= old(self).renders.len(),
            forall|w: usize| #[trigger]
                final(self).rel@.contains_key(w) && !old(self).rel@.contains_key(w)
                    ==> final(self).renders.data@[final(self).rel@[w] as int].props == final(self).widgets.data@[w as int].props,
    {
        let n = self.widgets.len_exec();
        let mut i: usize = root;
        while i < n
            invariant
                self.inv(),
                root <= i <= n,
                n == self.widgets.len(),
                self.widgets == old(self).widgets,
                self.dirty_widgets == old(self).dirty_widgets,
                self.wait_rebuilds == old(self).wait_rebuilds,
                self.dirty_layouts == old(self).dirty_layouts,
                self.root == old(self).root,
                old(self).inv(),
                old(self).fresh_from(root),
                old(self).renders.len() + old(self).widgets.len() < usize::MAX,
                self.renders.len() <= old(self).renders.len() + (i - root),
                old(self).renders.same_parents(&self.renders),
                forall|j: int|
                    0 <= j < old(self).renders.len() ==> #[trigger] self.renders.live@[j]
                        == old(self).renders.live@[j],
                forall|j: int| 0 <= j < i ==> #[trigger] self.mirror_at(j),
                forall|j: usize| #[trigger]
                    self.rel@.contains_key(j) ==> j < i || old(self).rel@.contains_key(j),
                forall|w: usize| #[trigger]
                    old(self).rel@.contains_key(w) ==> self.rel@.contains_key(w) && self.rel@[w]
                        == old(self).rel@[w],
                forall|w: usize| #[trigger]
                    self.rel@.contains_key(w) && !old(self).rel@.contains_key(w) ==> root <= w
                        && self.rel@[w] >= old(self).renders.len(),
                forall|w: usize| #[trigger]
                    self.rel@.contains_key(w) && !old(self).rel@.contains_key(w)
                        ==> self.renders.data@[self.rel@[w] as int].props == self.widgets.data@[w as int].props,
            decreases n - i,
        {
            let node = *self.widgets.get(i);
            if node.is_render() {
                let ghost before = *self;
                let up = self.up_nearest_render(i);
                let ro = create_render_object(&node);
                let r = self.renders.add_node(ro);
                proof {
                    assert(old(self).widgets.is_live(i as int));
                    assert(!self.rel@.contains_key(i));
                    self.rel.lemma_widget_of(r);
                    assert(self.rel.widget_of(r) is None) by {
                        if self.rel.widget_of(r) is Some {
                            let v = self.rel.widget_of(r).unwrap();
                            assert(before.rel@.contains_key(v));
                            assert(before.renders.is_live(r as int));
                        }
                    }
                }
                match up {
                    Some(u) => {
                        proof {
                            lemma_up_above(&self.widgets, i as int);
                            self.widgets.lemma_subtree_live(u as int, i as int);
                            assert(before.mirror_at(u as int));
                            assert(before.widgets.is_live(u as int));
                            assert(self.rel@.contains_key(u));
                        }
                        let pr = self.rel.widget_to_render(u).unwrap();
                        self.renders.append_child(pr, r);
                    },
                    None => {},
                }
                self.rel.bind(i, r);
                proof {
                    self.lemma_construct_step(&before, i, r);
                    assert forall|w: usize| #[trigger]
                        self.rel@.contains_key(w) && !old(self).rel@.contains_key(w)
                            implies self.renders.data@[self.rel@[w] as int].props == self.widgets.data@[w as int].props by {
                        if w != i {
                            assert(before.rel@.contains_key(w));
                            assert(before.renders.is_live(before.rel@[w] as int));
                        }
                    }
                }
            }
            i += 1;
        }
        proof {
            assert forall|w: int| 0 <= w < self.widgets.len() implies #[trigger] self.mirror_at(w) by {}
        }
    }

    /// One render node `r`, made and bound for widget `i`, keeps the
    /// invariant and the mirror of the nodes before `i`.
    proof fn lemma_construct_step(&self, before: &Reconciler, i: usize, r: usize)
        requires
            before.inv(),
            self.widgets == before.widgets,
            self.dirty_widgets == before.dirty_widgets,
            self.wait_rebuilds == before.wait_rebuilds,
            self.dirty_layouts == before.dirty_layouts,
            self.widgets.wf(),
            self.renders.wf(),
            self.rel.wf(),
            i < self.widgets.len(),
            self.widgets.is_live(i as int),
            self.renders_at(i as int),
            !before.rel@.contains_key(i),
            r == before.renders.len(),
            self.renders.len() == r + 1,
            self.renders.live@ == before.renders.live@.push(true),
            forall|j: int| 0 <= j < r && j != r ==> #[trigger] self.renders.parent@[j] == before.renders.parent@[j],
            self.rel@ == before.rel@.insert(i, r),
            forall|x: usize| x != r ==> #[trigger] self.rel.widget_of(x) == before.rel.widget_of(x),
            self.rel.widget_of(r) == Some(i),
            forall|j: int| 0 <= j < i ==> #[trigger] before.mirror_at(j),
            match self.up(i as int) {
                Some(u) => before.rel@.contains_key(u) && self.renders.parent_of(r as int) == Some(
                    before.rel@[u],
                ),
                None => self.renders.parent_of(r as int) is None,
            },
        ensures
            self.inv(),
            forall|j: int| 0 <= j <= i ==> #[trigger] self.mirror_at(j),
    {
        assert forall|w: usize| #[trigger] self.rel@.contains_key(w) implies self.widgets.is_live(w as int)
            && self.renders_at(w as int) && self.renders.is_live(self.rel@[w] as int) by {
            if w != i {
                assert(before.rel@.contains_key(w));
            }
        }
        assert forall|x: usize| #[trigger] self.renders.is_live(x as int) implies self.rel.widget_of(x) is Some by {
            if x != r {
                assert(before.renders.is_live(x as int));
            }
        }
        assert forall|j: int| 0 <= j <= i implies #[trigger] self.mirror_at(j) by {
            if j < i && self.widgets.is_live(j) && self.renders_at(j) {
                assert(before.mirror_at(j));
                assert(j as usize != i);
                let rj = before.rel@[j as usize];
                assert(before.renders.is_live(rj as int));
                assert(self.renders.parent@[rj as int] == before.renders.parent@[rj as int]);
                match self.up(j) {
                    Some(u) => {
                        assert(before.rel@.contains_key(u));
                        assert(u != i) by {
                            lemma_up_above(&self.widgets, j);
                        }
                    },
                    None => {},
                }
            }
        }
    }

    /// Inside the subtree of a live node `x`, a node either has its nearest
    /// render-capable ancestor inside that subtree too, or stands on the
    /// chain of single built children from `x` and so stands for what `x`
    /// stands for.
    proof fn lemma_chain(&self, x: int, y: int)
        requires
            self.inv(),
            self.widgets.is_live(x),
            0 <= y < self.widgets.len(),
            self.widgets.in_subtree(x, y),
        ensures
            (self.up(y) is Some && self.widgets.in_subtree(x, self.up(y).unwrap() as int))
                || self.down(x) == self.down(y),
        decreases y,
    {
        if y != x {
            let p = self.widgets.parent@[y].unwrap() as int;
            self.lemma_chain(x, p);
            assert(self.widgets.in_subtree(p, p));
            if !self.renders_at(p) {
                self.widgets.lemma_subtree_live(x, p);
                let ch = self.widgets.children@[p]@;
                assert(ch.contains(y as usize));
                assert(ch.len() <= 1);
                assert(ch[0] == y);
                assert(self.down(p) == self.down(y));
            }
        }
    }

    /// The render node of every render-capable node under `x` lies under the
    /// render node of what `x` stands for.
    proof fn lemma_render_below(&self, x: int, z: int)
        requires
            self.inv(),
            self.mirror(),
            self.widgets.is_live(x),
            0 <= z < self.widgets.len(),
            self.widgets.in_subtree(x, z),
            self.renders_at(z),
            self.down(x) is Some,
        ensures
            self.rel@.contains_key(z as usize),
            self.rel@.contains_key(self.down(x).unwrap()),
            self.renders.in_subtree(self.rel@[self.down(x).unwrap()] as int, self.rel@[z as usize] as int),
        decreases z,
    {
        let d = self.down(x).unwrap();
        lemma_down_below(&self.widgets, x);
        self.widgets.lemma_subtree_live(x, d as int);
        self.widgets.lemma_subtree_live(x, z);
        assert(self.mirror_at(d as int));
        assert(self.mirror_at(z));
        self.lemma_chain(x, z);
        if self.down(x) == self.down(z) {
            assert(self.down(z) == Some(z as usize));
        } else {
            let u = self.up(z).unwrap() as int;
            lemma_up_above(&self.widgets, z);
            self.lemma_render_below(x, u);
            let rz = self.rel@[z as usize] as int;
            let ru = self.rel@[u as usize] as int;
            assert(self.renders.parent@[rz] == Some(ru as usize));
            assert(self.renders.is_live(rz));
        }
    }

    /// Every live render node under the render node of what `x` stands for
    /// is bound to a node under `x`.
    proof fn lemma_widget_below(&self, x: int, r: int)
        requires
            self.inv(),
            self.mirror(),
            self.widgets.is_live(x),
            self.down(x) is Some,
            self.rel@.contains_key(self.down(x).unwrap()),
            0 <= r < self.renders.len(),
            self.renders.in_subtree(self.rel@[self.down(x).unwrap()] as int, r),
        ensures
            self.rel.widget_of(r as usize) is Some,
            self.widgets.in_subtree(x, self.rel.widget_of(r as usize).unwrap() as int),
            self.rel@[self.rel.widget_of(r as usize).unwrap()] == r,
        decreases r,
    {
        let d = self.down(x).unwrap();
        let rd = self.rel@[d] as int;
        lemma_down_below(&self.widgets, x);
        assert(self.renders.is_live(rd));
        self.renders.lemma_subtree_live(rd, r);
        self.rel.lemma_widget_of(r as usize);
        if r == rd {
            self.rel.lemma_widget_of(rd as usize);
            assert(self.rel.widget_of(rd as usize) == Some(d)) by {
                assert(self.rel.w2r@[d as int] == Some(rd as usize));
            }
        } else {
            let pr = self.renders.parent@[r].unwrap() as int;
            self.lemma_widget_below(x, pr);
            let u = self.rel.widget_of(pr as usize).unwrap();
            assert(self.renders.is_live(r));
            assert(self.renders.is_live((r as usize) as int));
            assert(self.rel.widget_of(r as usize) is Some);
            let z = self.rel.widget_of(r as usize).unwrap();
            assert(self.rel@.contains_key(z));
            assert(self.rel@[z] == r as usize);
            assert(self.mirror_at(z as int));
            assert(self.renders.parent@[r] is Some);
            let uz = self.up(z as int).unwrap();
            assert(self.rel@[uz] == pr);
            self.rel.lemma_widget_of(pr as usize);
            assert(uz == u) by {
                assert(self.rel.w2r@[uz as int] == Some(pr as usize));
                assert(self.rel.r2w@[pr as int] == Some(uz));
            }
            lemma_up_above(&self.widgets, z as int);
            self.widgets.lemma_subtree_trans(x, u as int, z as int);
        }
    }

    /// Node `c` is dead here, and so is the render node it had in `s0`.
    pub open spec fn dead_since(&self, s0: &Reconciler, c: usize) -> bool {
        &&& !self.widgets.live@[c as int]
        &&& s0.rel@.contains_key(c) ==> !self.renders.live@[s0.rel@[c] as int]
    }

    /// The subtree of `c` in `s0` is still in place below `c`, with the
    /// bindings it had.
    pub open spec fn intact(&self, s0: &Reconciler, c: usize) -> bool {
        forall|y: usize|
            #![trigger s0.widgets.in_subtree(c as int, y as int)]
            y < s0.widgets.len() && s0.widgets.in_subtree(c as int, y as int) ==> (y != c
                ==> self.widgets.parent@[y as int] == s0.widgets.parent@[y as int]) && self.same_binding(s0, y)
    }

    proof fn lemma_gone_convert(&self, sj: &Reconciler, s0: &Reconciler, c: usize)
        requires
            s0.widgets.wf(),
            sj.intact(s0, c),
            self.gone(sj, c),
            s0.widgets.len() <= sj.widgets.len(),
            c < s0.widgets.len(),
        ensures
            self.gone(s0, c),
    {
        assert forall|y: usize|
            y < s0.widgets.len() && s0.widgets.in_subtree(c as int, y as int) implies !(
            #[trigger] self.widgets.live@[y as int]) && !self.rel@.contains_key(y) && (s0.rel@.contains_key(y)
                ==> !self.renders.live@[s0.rel@[y] as int]) by {
            assert forall|z: int|
                0 <= z < s0.widgets.len() && z != c && s0.widgets.in_subtree(c as int, z) && s0.widgets.in_subtree(z, y as int)
                    implies #[trigger] sj.widgets.parent@[z] == s0.widgets.parent@[z] by {
                assert(s0.widgets.in_subtree(c as int, (z as usize) as int));
            }
            lemma_chain_frame_below(&s0.widgets, &sj.widgets, c as int, y as int);
            assert(sj.same_binding(s0, y));
            assert(sj.widgets.in_subtree(c as int, y as int));
            assert(y < sj.widgets.len());
            assert(!self.widgets.live@[y as int]);
            assert(!self.rel@.contains_key(y));
            if s0.rel@.contains_key(y) {
                assert(sj.rel@.contains_key(y));
                assert(!self.renders.live@[sj.rel@[y] as int]);
            }
        }
    }

    proof fn lemma_intact_sibling_at(&self, prev: &Reconciler, s0: &Reconciler, m: usize, z: usize, c: usize, y: usize)
        requires
            prev.widgets.wf(),
            s0.widgets.wf(),
            prev.intact(s0, z),
            s0.widgets.len() <= prev.widgets.len(),
            z < s0.widgets.len(),
            z != c,
            prev.widgets.parent@[z as int] == Some(m),
            prev.widgets.parent@[c as int] == Some(m),
            c < prev.widgets.len(),
            forall|y: int|
                0 <= y < prev.widgets.len() && !prev.widgets.in_subtree(c as int, y) ==> #[trigger] self.widgets.parent@[y]
                    == prev.widgets.parent@[y],
            forall|y: usize|
                y < prev.widgets.len() && !prev.widgets.in_subtree(c as int, y as int) ==> (
                #[trigger] self.rel@.contains_key(y) == prev.rel@.contains_key(y) && (prev.rel@.contains_key(y)
                    ==> self.rel@[y] == prev.rel@[y])),
            y < s0.widgets.len(),
            s0.widgets.in_subtree(z as int, y as int),
        ensures
            y == z || self.widgets.parent@[y as int] == s0.widgets.parent@[y as int],
            self.same_binding(s0, y),
    {
        {
            assert forall|w: int|
                0 <= w < s0.widgets.len() && w != z && s0.widgets.in_subtree(z as int, w) && s0.widgets.in_subtree(w, y as int)
                    implies #[trigger] prev.widgets.parent@[w] == s0.widgets.parent@[w] by {
                assert(s0.widgets.in_subtree(z as int, (w as usize) as int));
            }
            lemma_chain_frame_below(&s0.widgets, &prev.widgets, z as int, y as int);
            if prev.widgets.in_subtree(c as int, y as int) {
                prev.widgets.lemma_sibling_disjoint(c as int, z as int, y as int);
            }
            assert(y < prev.widgets.len());
            assert(!prev.widgets.in_subtree(c as int, y as int));
            assert(self.rel@.contains_key(y) == prev.rel@.contains_key(y));
            assert(prev.same_binding(s0, y));
            assert(self.widgets.parent@[y as int] == prev.widgets.parent@[y as int]);
            assert(y == z || prev.widgets.parent@[y as int] == s0.widgets.parent@[y as int]);
        }
    }

    proof fn lemma_intact_sibling(&self, prev: &Reconciler, s0: &Reconciler, m: usize, z: usize, c: usize)
        requires
            prev.widgets.wf(),
            s0.widgets.wf(),
            prev.intact(s0, z),
            s0.widgets.len() <= prev.widgets.len(),
            z < s0.widgets.len(),
            z != c,
            prev.widgets.parent@[z as int] == Some(m),
            prev.widgets.parent@[c as int] == Some(m),
            c < prev.widgets.len(),
            forall|y: int|
                0 <= y < prev.widgets.len() && !prev.widgets.in_subtree(c as int, y) ==> #[trigger] self.widgets.parent@[y]
                    == prev.widgets.parent@[y],
            forall|y: usize|
                y < prev.widgets.len() && !prev.widgets.in_subtree(c as int, y as int) ==> (
                #[trigger] self.rel@.contains_key(y) == prev.rel@.contains_key(y) && (prev.rel@.contains_key(y)
                    ==> self.rel@[y] == prev.rel@[y])),
        ensures
            self.intact(s0, z),
    {
        assert forall|y: usize|
            #![trigger s0.widgets.in_subtree(z as int, y as int)]
            y < s0.widgets.len() && s0.widgets.in_subtree(z as int, y as int) implies (y != z
                ==> self.widgets.parent@[y as int] == s0.widgets.parent@[y as int]) && self.same_binding(s0, y) by {
            self.lemma_intact_sibling_at(prev, s0, m, z, c, y);
        }
    }

    proof fn lemma_intact_extend(&self, prev: &Reconciler, s0: &Reconciler, z: usize)
        requires
            prev.intact(s0, z),
            s0.widgets.len() <= prev.widgets.len(),
            prev.widgets.same_parents(&self.widgets),
            forall|y: usize|
                y < prev.widgets.len() ==> (#[trigger] self.rel@.contains_key(y) == prev.rel@.contains_key(y)
                    && (prev.rel@.contains_key(y) ==> self.rel@[y] == prev.rel@[y])),
        ensures
            self.intact(s0, z),
    {
        assert forall|y: usize|
            #![trigger s0.widgets.in_subtree(z as int, y as int)]
            y < s0.widgets.len() && s0.widgets.in_subtree(z as int, y as int) implies (y != z
                ==> self.widgets.parent@[y as int] == s0.widgets.parent@[y as int]) && self.same_binding(s0, y) by {
            assert(self.rel@.contains_key(y) == prev.rel@.contains_key(y));
            assert(prev.same_binding(s0, y));
            assert(self.widgets.parent@[y as int] == prev.widgets.parent@[y as int]);
        }
    }

    /// After work confined to the subtree of the child `c` of `m`, the
    /// other children of `m` keep their subtrees, and what was gone stays
    /// gone.
    proof fn lemma_after_sibling_op(&self, sj: &Reconciler, s0: &Reconciler, m: usize, c: usize)
        requires
            s0.inv(),
            sj.inv(),
            self.inv(),
            s0.widgets.len() <= sj.widgets.len(),
            s0.renders.len() <= sj.renders.len(),
            c < sj.widgets.len(),
            sj.widgets.parent@[c as int] == Some(m),
            forall|y: int|
                0 <= y < sj.widgets.len() && !sj.widgets.in_subtree(c as int, y) ==> #[trigger] self.widgets.parent@[y]
                    == sj.widgets.parent@[y],
            forall|y: usize|
                y < sj.widgets.len() && !sj.widgets.in_subtree(c as int, y as int) ==> (
                #[trigger] self.rel@.contains_key(y) == sj.rel@.contains_key(y) && (sj.rel@.contains_key(y)
                    ==> self.rel@[y] == sj.rel@[y])),
            forall|y: int| 0 <= y < sj.widgets.len() && !sj.widgets.live@[y] ==> !#[trigger] self.widgets.live@[y],
            self.no_revival(sj),
        ensures
            forall|z: usize|
                #![trigger self.intact(s0, z)]
                sj.intact(s0, z) && z < s0.widgets.len() && z != c && sj.widgets.parent@[z as int] == Some(m)
                    ==> self.intact(s0, z),
            forall|c0: usize| #[trigger] sj.gone(s0, c0) ==> self.gone(s0, c0),
    {
        assert forall|z: usize|
            #![trigger self.intact(s0, z)]
            sj.intact(s0, z) && z < s0.widgets.len() && z != c && sj.widgets.parent@[z as int] == Some(m)
                implies self.intact(s0, z) by {
            self.lemma_intact_sibling(sj, s0, m, z, c);
        }
        assert forall|c0: usize| #[trigger] sj.gone(s0, c0) implies self.gone(s0, c0) by {
            self.lemma_gone_stays(sj, s0, c0);
        }
    }

    proof fn lemma_gone_stays(&self, prev: &Reconciler, s0: &Reconciler, c: usize)
        requires
            s0.inv(),
            prev.gone(s0, c),
            s0.widgets.len() <= prev.widgets.len(),
            s0.renders.len() <= prev.renders.len(),
            forall|y: int| 0 <= y < prev.widgets.len() && !prev.widgets.live@[y] ==> !#[trigger] self.widgets.live@[y],
            self.no_revival(prev),
            self.inv(),
        ensures
            self.gone(s0, c),
    {
        assert forall|y: usize|
            y < s0.widgets.len() && s0.widgets.in_subtree(c as int, y as int) implies !(
            #[trigger] self.widgets.live@[y as int]) && !self.rel@.contains_key(y) && (s0.rel@.contains_key(y)
                ==> !self.renders.live@[s0.rel@[y] as int]) by {
            assert(!prev.widgets.live@[y as int]);
            if self.rel@.contains_key(y) {
                assert(self.widgets.is_live(y as int));
            }
            if s0.rel@.contains_key(y) {
                assert(s0.renders.is_live(s0.rel@[y] as int));
            }
        }
    }

    proof fn lemma_dead_kept_outside(&self, prev: &Reconciler, c: usize)
        requires
            prev.inv(),
            prev.widgets.is_live(c as int),
            self.kept_outside(prev, c),
        ensures
            forall|y: int| 0 <= y < prev.widgets.len() && !prev.widgets.live@[y] ==> !#[trigger] self.widgets.live@[y],
    {
        assert forall|y: int| 0 <= y < prev.widgets.len() && !prev.widgets.live@[y] implies !#[trigger] self.widgets.live@[y] by {
            if prev.widgets.in_subtree(c as int, y) {
                prev.widgets.lemma_subtree_live(c as int, y);
            }
        }
    }

    /// No render node that was dead in `s0` is live here.
    pub open spec fn no_revival(&self, s0: &Reconciler) -> bool {
        forall|r: int| 0 <= r < s0.renders.len() && #[trigger] self.renders.live@[r] ==> s0.renders.live@[r]
    }

    /// Every node of the subtree of `c` in `s0` is dead and unbound here,
    /// and every render node that was bound to one of them is dead.
    pub open spec fn gone(&self, s0: &Reconciler, c: usize) -> bool {
        forall|y: usize|
            y < s0.widgets.len() && s0.widgets.in_subtree(c as int, y as int) ==> !(
            #[trigger] self.widgets.live@[y as int]) && !self.rel@.contains_key(y) && (s0.rel@.contains_key(y)
                ==> !self.renders.live@[s0.rel@[y] as int])
    }

    /// Unbinds every node of the subtree under `x`, purges it from the
    /// rebuild and dirty sets, and takes that subtree out of the widget tree
    /// and its render subtree out of the render tree. Detached nodes are
    /// marked dead; their indices are never handed out again.
    pub fn drop_subtree(&mut self, x: usize)
        requires
            old(self).inv(),
            old(self).mirror(),
            old(self).widgets.is_live(x as int),
        ensures
            final(self).inv(),
            final(self).mirror(),
            final(self).widgets.len() == old(self).widgets.len(),
            final(self).renders.len() == old(self).renders.len(),
            final(self).widgets.data@ == old(self).widgets.data@,
            same_shape_but(&old(self).widgets, &final(self).widgets, x as int),
            final(self).widgets.parent@ == old(self).widgets.parent@.update(x as int, None),
            forall|i: int|
                0 <= i < old(self).widgets.len() && Some(i as usize) != old(self).widgets.parent@[x as int]
                    ==> #[trigger] final(self).widgets.children@[i] == old(self).widgets.children@[i],
            old(self).widgets.parent@[x as int] matches Some(p) ==> exists|k: int|
                0 <= k < old(self).widgets.children_of(p as int).len() && old(
                    self,
                ).widgets.children_of(p as int)[k] == x && final(self).widgets.children_of(p as int)
                    == old(self).widgets.children_of(p as int).remove(k),
            forall|y: int|
                0 <= y < old(self).widgets.len() ==> #[trigger] final(self).widgets.live@[y] == (
                old(self).widgets.live@[y] && !old(self).widgets.in_subtree(x as int, y)),
            forall|y: usize|
                #![trigger final(self).rel@.contains_key(y)]
                final(self).rel@.contains_key(y) == (old(self).rel@.contains_key(y)
                    && !old(self).widgets.in_subtree(x as int, y as int)),
            forall|y: usize| #[trigger]
                final(self).rel@.contains_key(y) ==> final(self).rel@[y] == old(self).rel@[y],
            final(self).dirty_widgets@ == old(self).dirty_widgets@.filter(
                |y: usize| !old(self).widgets.in_subtree(x as int, y as int),
            ),
            final(self).wait_rebuilds@ == old(self).wait_rebuilds@.filter(
                |y: usize| !old(self).widgets.in_subtree(x as int, y as int),
            ),
            final(self).root == old(self).root,
            final(self).gone(old(self), x),
            final(self).no_revival(old(self)),
    {
        let ws = self.widgets.subtree(x);
        let d = self.down_nearest_render(x);
        let ghost s0 = *self;
        match d {
            Some(d) => {
                proof {
                    lemma_down_below(&self.widgets, x as int);
                    self.widgets.lemma_subtree_live(x as int, d as int);
                    assert(self.mirror_at(d as int));
                }
                let rd = self.rel.widget_to_render(d).unwrap();
                self.renders.detach(rd);
                let ghost r1 = self.renders;
                self.renders.kill_subtree(rd);
                proof {
                    assert forall|r: int| 0 <= r < s0.renders.len() implies #[trigger] self.renders.live@[r]
                        == (s0.renders.live@[r] && !s0.renders.in_subtree(rd as int, r)) by {
                        s0.renders.lemma_subtree_frame_but(&r1, rd as int, r);
                    }
                }
            },
            None => {},
        }
        self.widgets.detach(x);
        let ghost w1 = self.widgets;
        self.widgets.kill_subtree(x);
        proof {
            assert forall|y: int| 0 <= y < s0.widgets.len() implies #[trigger] w1.in_subtree(x as int, y)
                == s0.widgets.in_subtree(x as int, y) by {
                s0.widgets.lemma_subtree_frame_but(&w1, x as int, y);
            }
        }
        let ghost s1 = *self;
        let mut k: usize = 0;
        while k < ws.len()
            invariant
                0 <= k <= ws@.len(),
                ws@.no_duplicates(),
                s0.inv(),
                s0.mirror(),
                self.widgets == s1.widgets,
                self.renders == s1.renders,
                self.root == s0.root,
                self.rel.wf(),
                self.dirty_widgets.wf(),
                self.wait_rebuilds.wf(),
                self.dirty_layouts.wf(),
                forall|y: usize| #[trigger]
                    ws@.contains(y) <==> (y < s0.widgets.len() && s0.widgets.in_subtree(
                        x as int,
                        y as int,
                    )),
                forall|y: usize|
                    #![trigger self.rel@.contains_key(y)]
                    self.rel@.contains_key(y) == (s0.rel@.contains_key(y) && !ws@.subrange(0, k as int).contains(y)),
                forall|y: usize| #[trigger]
                    self.rel@.contains_key(y) ==> self.rel@[y] == s0.rel@[y],
                forall|r: usize| #[trigger]
                    self.rel.widget_of(r) == (if s0.rel.widget_of(r) is Some && ws@.subrange(
                        0,
                        k as int,
                    ).contains(s0.rel.widget_of(r).unwrap()) {
                        None
                    } else {
                        s0.rel.widget_of(r)
                    }),
                self.dirty_widgets@ == s0.dirty_widgets@.filter(
                    |y: usize| !ws@.subrange(0, k as int).contains(y),
                ),
                self.wait_rebuilds@ == s0.wait_rebuilds@.filter(
                    |y: usize| !ws@.subrange(0, k as int).contains(y),
                ),
                forall|r: usize| #[trigger]
                    self.dirty_layouts@.contains(r) == (s0.dirty_layouts@.contains(r) && !(
                    s0.rel.widget_of(r) is Some && ws@.subrange(0, k as int).contains(
                        s0.rel.widget_of(r).unwrap(),
                    ))),
            decreases ws@.len() - k,
        {
            let y = ws[k];
            let ghost sk = *self;
            match self.rel.widget_to_render(y) {
                Some(r) => {
                    self.dirty_layouts.remove(r);
                },
                None => {},
            }
            self.rel.unbind(y);
            self.dirty_widgets.remove(y);
            self.wait_rebuilds.remove(y);
            proof {
                let pre = ws@.subrange(0, k as int);
                let post = ws@.subrange(0, k + 1);
                assert(post == pre.push(y));
                crate::arena::lemma_push_contains(pre, y);
                assert(!pre.contains(y)) by {
                    if pre.contains(y) {
                        let j = choose|j: int| 0 <= j < pre.len() && pre[j] == y;
                        assert(ws@[j] == ws@[k as int]);
                    }
                }
                assert(self.dirty_widgets@ =~= s0.dirty_widgets@.filter(|z: usize| !post.contains(z)));
                assert(self.wait_rebuilds@ =~= s0.wait_rebuilds@.filter(|z: usize| !post.contains(z)));
                s0.rel.lemma_widget_of(0);
                assert forall|r: usize| #[trigger] self.rel.widget_of(r) == (if s0.rel.widget_of(r) is Some
                    && post.contains(s0.rel.widget_of(r).unwrap()) {
                    None
                } else {
                    s0.rel.widget_of(r)
                }) by {
                    s0.rel.lemma_widget_of(r);
                    if s0.rel.widget_of(r) is Some && s0.rel.widget_of(r).unwrap() == y {
                        assert(sk.rel@.contains_key(y));
                        assert(sk.rel@[y] == r);
                    }
                    if sk.rel@.contains_key(y) && r == sk.rel@[y] {
                        assert(s0.rel.w2r@[y as int] == Some(r));
                    }
                }
                assert forall|r: usize| #[trigger] self.dirty_layouts@.contains(r) == (s0.dirty_layouts@.contains(r) && !(
                    s0.rel.widget_of(r) is Some && post.contains(s0.rel.widget_of(r).unwrap()))) by {
                    s0.rel.lemma_widget_of(r);
                    if s0.rel.widget_of(r) is Some && s0.rel.widget_of(r).unwrap() == y {
                        assert(sk.rel@.contains_key(y));
                    }
                    if sk.rel@.contains_key(y) && r == sk.rel@[y] {
                        assert(s0.rel.w2r@[y as int] == Some(r));
                    }
                }
            }
            k += 1;
        }
        proof {
            assert(ws@.subrange(0, k as int) == ws@);
            assert(self.dirty_widgets@ =~= s0.dirty_widgets@.filter(
                |y: usize| !s0.widgets.in_subtree(x as int, y as int),
            ));
            assert(self.wait_rebuilds@ =~= s0.wait_rebuilds@.filter(
                |y: usize| !s0.widgets.in_subtree(x as int, y as int),
            ));
            assert forall|y: usize| #![trigger self.rel@.contains_key(y)]
                self.rel@.contains_key(y) == (s0.rel@.contains_key(y)
                    && !s0.widgets.in_subtree(x as int, y as int)) by {
                if s0.rel@.contains_key(y) {
                    assert(y < s0.widgets.len());
                }
            }
            assert forall|r: usize| #[trigger] self.rel.widget_of(r) == (if s0.rel.widget_of(r) is Some
                && s0.widgets.in_subtree(x as int, s0.rel.widget_of(r).unwrap() as int) {
                None
            } else {
                s0.rel.widget_of(r)
            }) by {
                s0.rel.lemma_widget_of(r);
                if s0.rel.widget_of(r) is Some {
                    assert(s0.rel@.contains_key(s0.rel.widget_of(r).unwrap()));
                }
            }
            assert forall|r: usize| #[trigger] self.dirty_layouts@.contains(r) == (s0.dirty_layouts@.contains(r) && !(
                s0.rel.widget_of(r) is Some && s0.widgets.in_subtree(x as int, s0.rel.widget_of(r).unwrap() as int))) by {
                s0.rel.lemma_widget_of(r);
                if s0.rel.widget_of(r) is Some {
                    assert(s0.rel@.contains_key(s0.rel.widget_of(r).unwrap()));
                }
            }
            self.lemma_drop_inv(&s0, x);
            self.lemma_drop_mirror(&s0, x);
            self.lemma_drop_gone(&s0, x);
            assert forall|r: int| 0 <= r < s0.renders.len() && #[trigger] self.renders.live@[r] implies s0.renders.live@[r] by {
                if s0.down(x as int) is Some {
                } else {
                    assert(self.renders == s0.renders);
                }
            }
        }
    }

    /// A subtree whose top stands for no render-capable node holds none.
    proof fn lemma_no_render_below(&self, x: int, z: int)
        requires
            self.inv(),
            self.widgets.is_live(x),
            self.down(x) is None,
            0 <= z < self.widgets.len(),
            self.widgets.in_subtree(x, z),
        ensures
            !self.renders_at(z),
        decreases z,
    {
        self.lemma_chain(x, z);
        if self.renders_at(z) {
            if self.down(x) == self.down(z) {
                assert(self.down(z) == Some(z as usize));
            } else {
                let u = self.up(z).unwrap() as int;
                lemma_up_above(&self.widgets, z);
                self.lemma_no_render_below(x, u);
            }
        }
    }

    /// The state `self` that dropping the subtree under `x` leaves behind.
    pub open spec fn dropped_from(&self, s0: &Reconciler, x: usize) -> bool {
        &&& self.widgets.wf()
        &&& self.widgets.len() == s0.widgets.len()
        &&& self.widgets.data@ == s0.widgets.data@
        &&& self.widgets.parent@ == s0.widgets.parent@.update(x as int, None)
        &&& forall|i: int|
            0 <= i < s0.widgets.len() && Some(i as usize) != s0.widgets.parent@[x as int]
                ==> #[trigger] self.widgets.children@[i] == s0.widgets.children@[i]
        &&& s0.widgets.parent@[x as int] matches Some(p) ==> exists|k: int|
            0 <= k < s0.widgets.children_of(p as int).len() && s0.widgets.children_of(p as int)[k]
                == x && self.widgets.children_of(p as int) == s0.widgets.children_of(
                p as int,
            ).remove(k)
        &&& forall|y: int|
            0 <= y < s0.widgets.len() ==> #[trigger] self.widgets.live@[y] == (s0.widgets.live@[y]
                && !s0.widgets.in_subtree(x as int, y))
        &&& self.renders.wf()
        &&& self.renders.len() == s0.renders.len()
        &&& s0.down(x as int) is None ==> self.renders == s0.renders
        &&& s0.down(x as int) matches Some(d) ==> {
            &&& s0.rel@.contains_key(d)
            &&& self.renders.parent@ == s0.renders.parent@.update(s0.rel@[d] as int, None)
            &&& forall|r: int|
                0 <= r < s0.renders.len() ==> #[trigger] self.renders.live@[r] == (
                s0.renders.live@[r] && !s0.renders.in_subtree(s0.rel@[d] as int, r))
        }
        &&& self.rel.wf()
        &&& self.dirty_widgets.wf()
        &&& self.wait_rebuilds.wf()
        &&& self.dirty_layouts.wf()
        &&& forall|y: usize|
            #![trigger self.rel@.contains_key(y)]
            self.rel@.contains_key(y) == (s0.rel@.contains_key(y) && !s0.widgets.in_subtree(
                x as int,
                y as int,
            ))
        &&& forall|y: usize| #[trigger]
            self.rel@.contains_key(y) ==> self.rel@[y] == s0.rel@[y]
        &&& forall|r: usize| #[trigger]
            self.rel.widget_of(r) == (if s0.rel.widget_of(r) is Some && s0.widgets.in_subtree(
                x as int,
                s0.rel.widget_of(r).unwrap() as int,
            ) {
                None
            } else {
                s0.rel.widget_of(r)
            })
        &&& self.dirty_widgets@ == s0.dirty_widgets@.filter(
            |y: usize| !s0.widgets.in_subtree(x as int, y as int),
        )
        &&& self.wait_rebuilds@ == s0.wait_rebuilds@.filter(
            |y: usize| !s0.widgets.in_subtree(x as int, y as int),
        )
        &&& forall|r: usize| #[trigger]
            self.dirty_layouts@.contains(r) == (s0.dirty_layouts@.contains(r) && !(s0.rel.widget_of(
                r,
            ) is Some && s0.widgets.in_subtree(x as int, s0.rel.widget_of(r).unwrap() as int)))
    }

    proof fn lemma_drop_gone(&self, s0: &Reconciler, x: usize)
        requires
            s0.inv(),
            s0.mirror(),
            s0.widgets.is_live(x as int),
            self.dropped_from(s0, x),
            self.inv(),
        ensures
            self.gone(s0, x),
    {
        assert forall|y: usize|
            y < s0.widgets.len() && s0.widgets.in_subtree(x as int, y as int) implies !(
            #[trigger] self.widgets.live@[y as int]) && !self.rel@.contains_key(y) && (s0.rel@.contains_key(y)
                ==> !self.renders.live@[s0.rel@[y] as int]) by {
            assert(!self.widgets.live@[y as int]);
            if self.rel@.contains_key(y) {
                assert(self.widgets.is_live(y as int));
            }
            if s0.rel@.contains_key(y) {
                assert(s0.renders_at(y as int));
                assert(s0.widgets.is_live(y as int));
                match s0.down(x as int) {
                    Some(d) => {
                        s0.lemma_render_below(x as int, y as int);
                        assert(s0.renders.is_live(s0.rel@[y] as int));
                    },
                    None => {
                        s0.lemma_no_render_below(x as int, y as int);
                    },
                }
            }
        }
    }

    proof fn lemma_drop_inv(&self, s0: &Reconciler, x: usize)
        requires
            s0.inv(),
            s0.mirror(),
            s0.widgets.is_live(x as int),
            self.dropped_from(s0, x),
        ensures
            self.inv(),
    {
        assert forall|w: usize| #[trigger] self.rel@.contains_key(w) implies self.widgets.is_live(w as int)
            && self.renders_at(w as int) && self.renders.is_live(self.rel@[w] as int) by {
            assert(s0.rel@.contains_key(w));
            let r = s0.rel@[w];
            if let Some(d) = s0.down(x as int) {
                if s0.renders.in_subtree(s0.rel@[d] as int, r as int) {
                    s0.lemma_widget_below(x as int, r as int);
                    s0.rel.lemma_widget_of(r);
                    assert(s0.rel.w2r@[w as int] == Some(r));
                }
            }
        }
        assert forall|r: usize| #[trigger] self.renders.is_live(r as int) implies self.rel.widget_of(r) is Some by {
            assert(s0.renders.is_live(r as int));
            s0.rel.lemma_widget_of(r);
            let z = s0.rel.widget_of(r).unwrap();
            assert(s0.rel@.contains_key(z));
            if s0.widgets.in_subtree(x as int, z as int) {
                match s0.down(x as int) {
                    Some(d) => {
                        s0.lemma_render_below(x as int, z as int);
                    },
                    None => {
                        s0.lemma_no_render_below(x as int, z as int);
                    },
                }
            }
        }
        assert forall|w: int|
            #![trigger self.widgets.children@[w]]
            self.widgets.is_live(w) && (self.widgets.data@[w].kind == Kind::Compose
                || self.widgets.data@[w].kind == Kind::SingleChild) implies self.widgets.children@[w]@.len()
                <= 1 by {
            assert(s0.widgets.is_live(w));
            if Some(w as usize) == s0.widgets.parent@[x as int] {
                let p = w;
                let k = choose|k: int|
                    0 <= k < s0.widgets.children_of(p as int).len() && s0.widgets.children_of(p as int)[k]
                        == x && self.widgets.children_of(p as int) == s0.widgets.children_of(
                        p as int,
                    ).remove(k);
            }
        }
        assert forall|r: usize| #[trigger] self.dirty_layouts@.contains(r) implies self.renders.is_live(r as int) by {
            assert(s0.renders.is_live(r as int));
            if let Some(d) = s0.down(x as int) {
                if s0.renders.in_subtree(s0.rel@[d] as int, r as int) {
                    s0.lemma_widget_below(x as int, r as int);
                }
            }
        }
        assert forall|w: usize| #[trigger] self.wait_rebuilds@.contains(w) implies self.widgets.is_live(w as int)
            && self.widgets.data@[w as int].kind == Kind::Compose by {
            assert(s0.wait_rebuilds@.contains(w));
        }
        assert forall|w: usize| #[trigger] self.dirty_widgets@.contains(w) implies self.widgets.is_live(w as int) by {
            assert(s0.dirty_widgets@.contains(w));
        }
    }

    proof fn lemma_drop_mirror(&self, s0: &Reconciler, x: usize)
        requires
            s0.inv(),
            s0.mirror(),
            s0.widgets.is_live(x as int),
            self.dropped_from(s0, x),
        ensures
            self.mirror(),
    {
        assert(same_shape_but(&s0.widgets, &self.widgets, x as int));
        assert forall|y: int| 0 <= y < self.widgets.len() implies #[trigger] self.mirror_at(y) by {
            if self.widgets.is_live(y) && self.renders_at(y) {
                assert(!s0.widgets.in_subtree(x as int, y));
                assert(s0.mirror_at(y));
                lemma_up_frame(&s0.widgets, &self.widgets, x as int, y);
                let ry = s0.rel@[y as usize];
                assert(self.rel@.contains_key(y as usize));
                if let Some(d) = s0.down(x as int) {
                    assert(ry != s0.rel@[d]) by {
                        if ry == s0.rel@[d] {
                            assert(s0.rel.w2r@[y] == Some(ry));
                            assert(s0.rel.r2w@[ry as int] == Some(y as usize));
                            lemma_down_below(&s0.widgets, x as int);
                        }
                    }
                }
                if let Some(u) = s0.up(y) {
                    lemma_up_above(&s0.widgets, y);
                    if s0.widgets.in_subtree(x as int, u as int) {
                        s0.widgets.lemma_subtree_trans(x as int, u as int, y);
                    }
                    assert(self.rel@.contains_key(u));
                }
            }
        }
    }

    /// A render-capable node whose nearest render-capable ancestor is `m` is
    /// what some child of `m` stands for.
    proof fn lemma_up_child(&self, m: usize, z: int)
        requires
            self.inv(),
            0 <= z < self.widgets.len(),
            self.widgets.is_live(z),
            self.up(z) == Some(m),
        ensures
            exists|c: usize| #[trigger]
                self.widgets.children_of(m as int).contains(c) && self.down(c as int) == self.down(z),
        decreases z,
    {
        let p = self.widgets.parent@[z].unwrap() as int;
        assert(self.widgets.children@[p]@.contains(z as usize));
        if p == m as int {
            assert(self.widgets.children_of(m as int).contains(z as usize));
        } else {
            assert(self.widgets.in_subtree(p, p));
            self.widgets.lemma_subtree_live(p, z);
            assert(p < z);
            if self.renders_at(p) {
                assert(up_of(&self.widgets, z) == Some(p as usize));
            }
            assert(!self.renders_at(p));
            assert(self.widgets.data@[p].kind == Kind::Compose);
            assert(self.up(z) == self.up(p));
            self.lemma_up_child(m, p);
            let ch = self.widgets.children@[p]@;
            assert(ch.len() <= 1);
            assert(ch[0] == z);
            assert(self.down(p) == self.down(z));
        }
    }

    /// Puts the children of the live multi-child node `m` in the order
    /// given, which holds the same nodes, and the render children of its
    /// render node in the matching order.
    fn reorder_children(&mut self, m: usize, order: Vec<usize>)
        requires
            old(self).inv(),
            old(self).mirror(),
            old(self).widgets.is_live(m as int),
            old(self).widgets.data@[m as int].kind == Kind::MultiChild,
            order@.no_duplicates(),
            forall|x: usize| #[trigger]
                order@.contains(x) <==> old(self).widgets.children_of(m as int).contains(x),
        ensures
            final(self).inv(),
            final(self).mirror(),
            final(self).widgets.children_of(m as int) == order@,
            final(self).widgets.parent@ == old(self).widgets.parent@,
            final(self).widgets.live@ == old(self).widgets.live@,
            final(self).widgets.data@ == old(self).widgets.data@,
            final(self).widgets.children@.len() == old(self).widgets.children@.len(),
            forall|i: int|
                0 <= i < old(self).widgets.len() && i != m ==> #[trigger] final(self).widgets.children@[i]
                    == old(self).widgets.children@[i],
            final(self).rel == old(self).rel,
            final(self).dirty_widgets == old(self).dirty_widgets,
            final(self).wait_rebuilds == old(self).wait_rebuilds,
            final(self).dirty_layouts == old(self).dirty_layouts,
            final(self).root == old(self).root,
            final(self).renders.parent@ == old(self).renders.parent@,
            final(self).renders.live@ == old(self).renders.live@,
            final(self).renders.data@ == old(self).renders.data@,
            old(self).rel@.contains_key(m),
            (forall|i: int| 0 <= i < order@.len() ==> (#[trigger] old(self).down(order@[i] as int)) is Some)
                ==> final(self).renders.children_of(old(self).rel@[m] as int) == Seq::new(
                order@.len(),
                |i: int| old(self).rel@[old(self).down(order@[i] as int).unwrap()],
            ),
    {
        proof {
            assert(old(self).mirror_at(m as int));
        }
        let rm = self.rel.widget_to_render(m).unwrap();
        let mut rorder: Vec<usize> = Vec::new();
        let mut i: usize = 0;
        while i < order.len()
            invariant
                self == old(self),
                self.inv(),
                self.mirror(),
                self.widgets.is_live(m as int),
                self.renders_at(m as int),
                self.rel@.contains_key(m),
                rm == self.rel@[m],
                order@.no_duplicates(),
                forall|x: usize| #[trigger]
                    order@.contains(x) <==> self.widgets.children_of(m as int).contains(x),
                i <= order@.len(),
                rorder@.no_duplicates(),
                forall|r: usize| #[trigger]
                    rorder@.contains(r) <==> exists|j: int|
                        0 <= j < i && self.down(#[trigger] order@[j] as int) is Some && self.rel@[self.down(
                            order@[j] as int,
                        ).unwrap()] == r,
                forall|r: usize| #[trigger]
                    rorder@.contains(r) ==> self.renders.children_of(rm as int).contains(r),
                (forall|j: int| 0 <= j < i ==> (#[trigger] self.down(order@[j] as int)) is Some)
                    ==> rorder@ == Seq::new(
                    i as nat,
                    |j: int| self.rel@[self.down(order@[j] as int).unwrap()],
                ),
            decreases order@.len() - i,
        {
            let c = order[i];
            proof {
                assert(order@.contains(c));
                assert(self.widgets.children_of(m as int).contains(c));
            }
            match self.down_nearest_render(c) {
                Some(d) => {
                    proof {
                        let k = choose|k: int| 0 <= k < self.widgets.children_of(m as int).len() && self.widgets.children_of(m as int)[k] == c;
                        assert(self.widgets.children@[m as int]@[k] == c);
                        assert(self.widgets.parent@[c as int] == Some(m));
                        assert(self.widgets.in_subtree(m as int, m as int));
                        self.widgets.lemma_subtree_live(m as int, c as int);
                        lemma_down_below(&self.widgets, c as int);
                        self.widgets.lemma_subtree_live(c as int, d as int);
                        assert(self.mirror_at(d as int));
                        assert(self.up(c as int) == Some(m));
                    }
                    let r = self.rel.widget_to_render(d).unwrap();
                    let ghost r0 = rorder@;
                    proof {
                        assert(self.renders.parent@[r as int] == Some(rm));
                        assert(self.renders.children@[rm as int]@.contains(r));
                        if r0.contains(r) {
                            let j = choose|j: int|
                                0 <= j < i && self.down(#[trigger] order@[j] as int) is Some && self.rel@[self.down(
                                    order@[j] as int,
                                ).unwrap()] == r;
                            let dj = self.down(order@[j] as int).unwrap();
                            let cj = order@[j];
                            assert(order@.contains(cj));
                            assert(self.widgets.children_of(m as int).contains(cj));
                            let kj = choose|k: int| 0 <= k < self.widgets.children_of(m as int).len() && self.widgets.children_of(m as int)[k] == cj;
                            assert(self.widgets.children@[m as int]@[kj] == cj);
                            assert(self.widgets.parent@[cj as int] == Some(m));
                            self.widgets.lemma_subtree_live(m as int, cj as int);
                            lemma_down_below(&self.widgets, cj as int);
                            self.widgets.lemma_subtree_live(cj as int, dj as int);
                            assert(self.mirror_at(dj as int));
                            assert(self.rel.w2r@[dj as int] == Some(r));
                            assert(self.rel.w2r@[d as int] == Some(r));
                            assert(dj == d);
                            self.widgets.lemma_sibling_disjoint(c as int, cj as int, d as int);
                        }
                        crate::arena::lemma_push_contains(r0, r);
                        crate::arena::lemma_push_parts(r0, r);
                    }
                    rorder.push(r);
                    proof {
                        assert forall|x: usize| #[trigger] rorder@.contains(x) <==> exists|j: int|
                            0 <= j < i + 1 && self.down(#[trigger] order@[j] as int) is Some && self.rel@[self.down(
                                order@[j] as int,
                            ).unwrap()] == x by {
                            if rorder@.contains(x) && x != r {
                                assert(r0.contains(x));
                            }
                            if x == r {
                                assert(order@[i as int] == c);
                            }
                        }
                        if forall|j: int| 0 <= j < i + 1 ==> (#[trigger] self.down(order@[j] as int)) is Some {
                            assert(rorder@ =~= Seq::new(
                                (i + 1) as nat,
                                |j: int| self.rel@[self.down(order@[j] as int).unwrap()],
                            ));
                        }
                    }
                },
                None => {
                    proof {
                        assert forall|x: usize| #[trigger] rorder@.contains(x) <==> exists|j: int|
                            0 <= j < i + 1 && self.down(#[trigger] order@[j] as int) is Some && self.rel@[self.down(
                                order@[j] as int,
                            ).unwrap()] == x by {
                            if exists|j: int|
                                0 <= j < i + 1 && self.down(#[trigger] order@[j] as int) is Some && self.rel@[self.down(
                                    order@[j] as int,
                                ).unwrap()] == x {
                                let j = choose|j: int|
                                    0 <= j < i + 1 && self.down(#[trigger] order@[j] as int) is Some && self.rel@[self.down(
                                        order@[j] as int,
                                    ).unwrap()] == x;
                                assert(j != i);
                            }
                        }
                        assert(self.down(order@[i as int] as int) is None);
                    }
                },
            }
            i += 1;
        }
        proof {
            assert forall|r: usize| #[trigger] self.renders.children_of(rm as int).contains(r) implies rorder@.contains(r) by {
                let k = choose|k: int| 0 <= k < self.renders.children_of(rm as int).len() && self.renders.children_of(rm as int)[k] == r;
                assert(self.renders.children@[rm as int]@[k] == r);
                assert(self.renders.parent@[r as int] == Some(rm));
                assert(self.renders.is_live(rm as int));
                assert(self.renders.is_live(r as int));
                self.rel.lemma_widget_of(r);
                let z = self.rel.widget_of(r).unwrap();
                assert(self.mirror_at(z as int));
                let u = self.up(z as int).unwrap();
                self.rel.lemma_widget_of(rm);
                assert(u == m) by {
                    assert(self.rel.w2r@[u as int] == Some(rm));
                    assert(self.rel.w2r@[m as int] == Some(rm));
                }
                self.lemma_up_child(m, z as int);
                let c = choose|c: usize| #[trigger]
                    self.widgets.children_of(m as int).contains(c) && self.down(c as int) == self.down(z as int);
                assert(order@.contains(c));
                let j = choose|j: int| 0 <= j < order@.len() && order@[j] == c;
                assert(self.down(order@[j] as int) is Some);
            }
        }
        let ghost s1 = *self;
        self.widgets.set_children(m, order);
        self.renders.set_children(rm, rorder);
        proof {
            assert(same_shape_but(&s1.widgets, &self.widgets, s1.widgets.len() as int));
            assert forall|w: int| 0 <= w < self.widgets.len() implies #[trigger] self.mirror_at(w) by {
                assert(s1.mirror_at(w));
                if 0 <= w < s1.widgets.len() {
                    assert(!s1.widgets.in_subtree(s1.widgets.len() as int, w)) by {
                        if s1.widgets.in_subtree(s1.widgets.len() as int, w) {
                            s1.widgets.lemma_subtree_bounds(s1.widgets.len() as int, w);
                        }
                    }
                    lemma_up_frame(&s1.widgets, &self.widgets, s1.widgets.len() as int, w);
                }
            }
            assert forall|w: int|
                #![trigger self.widgets.children@[w]]
                self.widgets.is_live(w) && (self.widgets.data@[w].kind == Kind::Compose
                    || self.widgets.data@[w].kind == Kind::SingleChild) implies self.widgets.children@[w]@.len()
                    <= 1 by {
                assert(w != m);
                assert(self.widgets.children@[w] == s1.widgets.children@[w]);
            }
            assert forall|w: usize| #[trigger] self.rel@.contains_key(w) implies self.widgets.is_live(w as int)
                && self.renders_at(w as int) && self.renders.is_live(self.rel@[w] as int) by {
                assert(s1.rel@.contains_key(w));
            }
            assert forall|r: usize| #[trigger] self.renders.is_live(r as int) implies self.rel.widget_of(r) is Some by {
                assert(s1.renders.is_live(r as int));
            }
            assert forall|w: usize| #[trigger] self.wait_rebuilds@.contains(w) implies self.widgets.is_live(w as int)
                && self.widgets.data@[w as int].kind == Kind::Compose by {
                assert(s1.wait_rebuilds@.contains(w));
            }
            assert forall|w: usize| #[trigger] self.dirty_widgets@.contains(w) implies self.widgets.is_live(w as int) by {
                assert(s1.dirty_widgets@.contains(w));
            }
            assert forall|r: usize| #[trigger] self.dirty_layouts@.contains(r) implies self.renders.is_live(r as int) by {
                assert(s1.dirty_layouts@.contains(r));
            }
        }
    }

    /// Stores the new widget value in the node `x`, which it matches, marks
    /// `x` dirty, and hands new props to its render object, marking that
    /// one for layout when the props differ.
    fn update_in_place(&mut self, x: usize, node: WidgetNode)
        requires
            old(self).inv(),
            old(self).mirror(),
            old(self).widgets.is_live(x as int),
            old(self).widgets.data@[x as int].matches(node),
        ensures
            final(self).inv(),
            final(self).mirror(),
            final(self).widgets.data@ == old(self).widgets.data@.update(x as int, node),
            final(self).widgets.parent@ == old(self).widgets.parent@,
            final(self).widgets.children@ == old(self).widgets.children@,
            final(self).widgets.live@ == old(self).widgets.live@,
            final(self).rel == old(self).rel,
            final(self).renders.parent@ == old(self).renders.parent@,
            final(self).renders.children@ == old(self).renders.children@,
            final(self).renders.live@ == old(self).renders.live@,
            final(self).renders.len() == old(self).renders.len(),
            node.renders() ==> final(self).renders.data@[old(self).rel@[x] as int].props == node.props,
            node.renders() && old(self).renders.data@[old(self).rel@[x] as int].props != node.props
                ==> final(self).dirty_layouts@ == old(self).dirty_layouts@.insert(old(self).rel@[x]),
            !(node.renders() && old(self).renders.data@[old(self).rel@[x] as int].props != node.props)
                ==> final(self).dirty_layouts@ == old(self).dirty_layouts@,
            final(self).dirty_widgets@ == old(self).dirty_widgets@.insert(x),
            final(self).wait_rebuilds == old(self).wait_rebuilds,
            final(self).root == old(self).root,
    {
        let ghost s0 = *self;
        self.widgets.set_data(x, node);
        self.dirty_widgets.insert(x);
        if node.is_render() {
            proof {
                assert(s0.mirror_at(x as int));
            }
            let r = self.rel.widget_to_render(x).unwrap();
            if self.renders.get(r).props != node.props {
                self.renders.set_data(r, create_render_object(&node));
                self.dirty_layouts.insert(r);
            }
        }
        proof {
            assert(same_shape_but(&s0.widgets, &self.widgets, s0.widgets.len() as int));
            assert forall|w: int| 0 <= w < self.widgets.len() implies #[trigger] self.mirror_at(w) by {
                assert(s0.mirror_at(w));
                assert(!s0.widgets.in_subtree(s0.widgets.len() as int, w)) by {
                    if s0.widgets.in_subtree(s0.widgets.len() as int, w) {
                        s0.widgets.lemma_subtree_bounds(s0.widgets.len() as int, w);
                    }
                }
                lemma_up_frame(&s0.widgets, &self.widgets, s0.widgets.len() as int, w);
            }
            assert forall|w: int|
                #![trigger self.widgets.children@[w]]
                self.widgets.is_live(w) && (self.widgets.data@[w].kind == Kind::Compose
                    || self.widgets.data@[w].kind == Kind::SingleChild) implies self.widgets.children@[w]@.len()
                    <= 1 by {
                assert(s0.widgets.children@[w] == self.widgets.children@[w]);
            }
            assert forall|w: usize| #[trigger] self.rel@.contains_key(w) implies self.widgets.is_live(w as int)
                && self.renders_at(w as int) && self.renders.is_live(self.rel@[w] as int) by {
                assert(s0.rel@.contains_key(w));
            }
            assert forall|r: usize| #[trigger] self.renders.is_live(r as int) implies self.rel.widget_of(r) is Some by {
                assert(s0.renders.is_live(r as int));
            }
            assert forall|w: usize| #[trigger] self.wait_rebuilds@.contains(w) implies self.widgets.is_live(w as int)
                && self.widgets.data@[w as int].kind == Kind::Compose by {
                assert(s0.wait_rebuilds@.contains(w));
            }
            assert forall|r: usize| #[trigger] self.dirty_layouts@.contains(r) implies self.renders.is_live(r as int) by {
                if !s0.dirty_layouts@.contains(r) {
                    assert(s0.rel@.contains_key(x));
                }
            }
        }
    }

    /// Hangs the description `w` under `p` as a fresh subtree and builds its
    /// render nodes.
    fn append_fresh(&mut self, p: usize, w: &Widget) -> (nid: usize)
        requires
            old(self).inv(),
            old(self).mirror(),
            old(self).can_adopt(p),
            old(self).widgets.len() + old(self).renders.len() + 2 * w.size() < usize::MAX,
        ensures
            final(self).inv(),
            final(self).mirror(),
            nid == old(self).widgets.len(),
            final(self).widgets.len() == old(self).widgets.len() + w.size(),
            final(self).renders.len() <= old(self).renders.len() + w.size(),
            final(self).widgets.data@[nid as int] == w.node(),
            final(self).widgets.is_live(nid as int),
            final(self).widgets.parent@[nid as int] == Some(p),
            final(self).widgets.children_of(p as int) == old(self).widgets.children_of(p as int).push(nid),
            forall|i: int|
                nid <= i < final(self).widgets.len() ==> #[trigger] final(self).widgets.in_subtree(nid as int, i),
            old(self).widgets.same_parents(&final(self).widgets),
            forall|i: int|
                0 <= i < old(self).widgets.len() ==> #[trigger] final(self).widgets.data@[i]
                    == old(self).widgets.data@[i],
            forall|i: int|
                0 <= i < old(self).widgets.len() ==> #[trigger] final(self).widgets.live@[i]
                    == old(self).widgets.live@[i],
            forall|i: int|
                0 <= i < old(self).widgets.len() && i != p ==> #[trigger] final(self).widgets.children@[i]
                    == old(self).widgets.children@[i],
            forall|y: usize| #[trigger]
                old(self).rel@.contains_key(y) ==> final(self).rel@.contains_key(y) && final(self).rel@[y]
                    == old(self).rel@[y],
            forall|y: usize| #[trigger]
                final(self).rel@.contains_key(y) ==> old(self).rel@.contains_key(y) || y >= nid,
            old(self).renders.same_parents(&final(self).renders),
            forall|i: int|
                0 <= i < old(self).renders.len() ==> #[trigger] final(self).renders.live@[i]
                    == old(self).renders.live@[i],
            forall|y: usize| #[trigger]
                final(self).rel@.contains_key(y) && y >= nid ==> final(self).rel@[y] >= old(self).renders.len(),
            final(self).dirty_widgets == old(self).dirty_widgets,
            final(self).wait_rebuilds == old(self).wait_rebuilds,
            final(self).dirty_layouts == old(self).dirty_layouts,
            final(self).root == old(self).root,
    {
        let ghost s0 = *self;
        let nid = self.inflate(Some(p), w);
        proof {
            assert(same_shape_but(&s0.widgets, &self.widgets, s0.widgets.len() as int));
            assert forall|i: int| 0 <= i < nid implies #[trigger] self.mirror_at(i) by {
                assert(s0.mirror_at(i));
                assert(!s0.widgets.in_subtree(s0.widgets.len() as int, i)) by {
                    if s0.widgets.in_subtree(s0.widgets.len() as int, i) {
                        s0.widgets.lemma_subtree_bounds(s0.widgets.len() as int, i);
                    }
                }
                lemma_up_frame(&s0.widgets, &self.widgets, s0.widgets.len() as int, i);
            }
            assert forall|i: int| nid <= i < self.widgets.len() implies #[trigger] self.widgets.is_live(i)
                && self.widgets.in_subtree(nid as int, i) && !self.rel@.contains_key(i as usize) by {
                assert(self.widgets.is_live(i));
                if self.rel@.contains_key(i as usize) {
                    assert(s0.rel@.contains_key(i as usize));
                }
            }
        }
        let ghost s1 = *self;
        self.construct_render_tree(nid);
        proof {
            assert forall|i: int| nid <= i < self.widgets.len() implies #[trigger] self.widgets.in_subtree(nid as int, i) by {
                assert(s1.widgets.is_live(i));
            }
        }
        nid
    }

    /// Compared with `s0`, nothing outside the subtree of `x` changed but the
    /// child list of the parent of `x` and the rebuild queue, which only
    /// shrank.
    pub open spec fn kept_outside(&self, s0: &Reconciler, x: usize) -> bool {
        &&& s0.widgets.len() <= self.widgets.len()
        &&& forall|y: int|
            0 <= y < s0.widgets.len() && !s0.widgets.in_subtree(x as int, y)
                ==> #[trigger] self.widgets.parent@[y] == s0.widgets.parent@[y]
        &&& forall|y: int|
            0 <= y < s0.widgets.len() && !s0.widgets.in_subtree(x as int, y)
                ==> #[trigger] self.widgets.live@[y] == s0.widgets.live@[y]
        &&& forall|y: int|
            0 <= y < s0.widgets.len() && !s0.widgets.in_subtree(x as int, y)
                ==> #[trigger] self.widgets.data@[y] == s0.widgets.data@[y]
        &&& forall|y: int|
            0 <= y < s0.widgets.len() && !s0.widgets.in_subtree(x as int, y) && Some(y as usize)
                != s0.widgets.parent@[x as int] ==> #[trigger] self.widgets.children@[y]
                == s0.widgets.children@[y]
        &&& forall|y: usize|
            y < s0.widgets.len() && !s0.widgets.in_subtree(x as int, y as int) ==> (
            #[trigger] self.rel@.contains_key(y) == s0.rel@.contains_key(y) && (s0.rel@.contains_key(y)
                ==> self.rel@[y] == s0.rel@[y]))
        &&& self.wait_rebuilds@.subset_of(s0.wait_rebuilds@)
        &&& forall|y: usize|
            y < s0.widgets.len() && !s0.widgets.in_subtree(x as int, y as int)
                ==> #[trigger] self.wait_rebuilds@.contains(y) == s0.wait_rebuilds@.contains(y)
        &&& self.root == s0.root
    }

    /// Compared with `s0`, no child list outside the subtree of `x` changed.
    pub open spec fn children_kept(&self, s0: &Reconciler, x: usize) -> bool {
        forall|y: int|
            0 <= y < s0.widgets.len() && !s0.widgets.in_subtree(x as int, y)
                ==> #[trigger] self.widgets.children@[y] == s0.widgets.children@[y]
    }

    /// Reconciles the live node `old_id`, which has a parent, with the new
    /// description `new`. When the node matches (same key, kind and type) it
    /// is updated in place and its children are reconciled in turn;
    /// otherwise its subtree is dropped and `new` is built afresh under the
    /// same parent. Returns the node that now stands for `new`.
    pub fn repair_subtree(&mut self, old_id: usize, new: &Widget) -> (nid: usize)
        requires
            old(self).inv(),
            old(self).mirror(),
            old(self).widgets.is_live(old_id as int),
            old(self).widgets.parent@[old_id as int] is Some,
            old(self).widgets.len() + old(self).renders.len() + 2 * new.size() < usize::MAX,
        ensures
            final(self).inv(),
            final(self).mirror(),
            final(self).widgets.len() <= old(self).widgets.len() + new.size(),
            final(self).renders.len() <= old(self).renders.len() + new.size(),
            old(self).renders.len() <= final(self).renders.len(),
            final(self).no_revival(old(self)),
            final(self).kept_outside(old(self), old_id),
            !final(self).wait_rebuilds@.contains(old_id),
            final(self).widgets.is_live(nid as int),
            final(self).widgets.parent@[nid as int] == old(self).widgets.parent@[old_id as int],
            final(self).widgets.data@[nid as int] == new.node(),
            (nid == old_id) == old(self).widgets.data@[old_id as int].matches(new.node()),
            nid != old_id ==> nid >= old(self).widgets.len() && !final(self).widgets.live@[old_id as int],
            nid != old_id ==> final(self).gone(old(self), old_id),
            nid == old_id && *new is Render ==> final(self).widgets.len() == old(self).widgets.len()
                && final(self).renders.len() == old(self).renders.len(),
            match *new {
                Widget::MultiChild(_, cs) => nid == old_id ==> final(self).children_repaired(old(self), old_id, cs@),
                _ => true,
            },
            nid != old_id ==> forall|y: usize| #[trigger]
                final(self).rel@.contains_key(y) && y >= old(self).widgets.len() ==> final(self).rel@[y]
                    >= old(self).renders.len(),
            nid == old_id && old(self).rel@.contains_key(old_id) ==> final(self).rel@.contains_key(old_id)
                && final(self).rel@[old_id] == old(self).rel@[old_id],
            nid != old_id && final(self).rel@.contains_key(nid) ==> final(self).rel@[nid]
                >= old(self).renders.len(),
            forall|z: usize| #[trigger]
                final(self).widgets.children_of(old(self).widgets.parent@[old_id as int].unwrap() as int).contains(z)
                    <==> ((old(self).widgets.children_of(old(self).widgets.parent@[old_id as int].unwrap() as int).contains(z)
                    && z != old_id) || z == nid),
        decreases new, 0nat,
    {
        let node = new.to_node();
        let cur = *self.widgets.get(old_id);
        let ghost s0 = *self;
        let p = self.widgets.parent(old_id).unwrap();
        proof {
            assert(s0.widgets.children_of(p as int).contains(old_id));
        }
        if cur.can_update(&node) {
            self.update_in_place(old_id, node);
            proof {
                self.lemma_kept_refl(&s0, old_id);
            }
            match new {
                Widget::Compose(_, c) => {
                    self.repair_only_child(old_id, c, Ghost(s0));
                },
                Widget::SingleChild(_, c) => {
                    self.repair_only_child(old_id, c, Ghost(s0));
                },
                Widget::MultiChild(_, cs) => {
                    let ghost s1 = *self;
                    self.repair_children_by_key(old_id, cs);
                    proof {
                        self.lemma_relay_update(&s1, &s0, old_id, cs@);
                        self.lemma_kept_chain(&s0, &s1, old_id, old_id);
                        assert forall|y: int| 0 <= y < s0.widgets.len() && !s0.widgets.in_subtree(old_id as int, y)
                            implies #[trigger] self.widgets.children@[y] == s0.widgets.children@[y] by {
                            s0.widgets.lemma_subtree_frame(&s1.widgets, old_id as int, y);
                            assert(s1.widgets.children@[y] == s0.widgets.children@[y]);
                        }
                    }
                },
                Widget::Render(_) => {
                    proof {
                        assert(self.children_kept(&s0, old_id));
                    }
                },
            }
            let ghost s2 = *self;
            self.wait_rebuilds.remove(old_id);
            proof {
                assert(s2.kept_outside(&s0, old_id));
                assert(s0.widgets.in_subtree(old_id as int, old_id as int));
                self.lemma_kept_after_remove(&s2, &s0, old_id);
                if let Widget::MultiChild(_, cs) = new {
                    if s2.children_repaired(&s0, old_id, cs@) {
                        self.lemma_repaired_after_remove(&s2, &s0, old_id, cs@);
                    }
                }

                assert forall|w: int| 0 <= w < self.widgets.len() implies #[trigger] self.mirror_at(w) by {
                    assert(s2.mirror_at(w));
                }
                assert(s2.children_kept(&s0, old_id));
                assert(!s0.widgets.in_subtree(old_id as int, p as int)) by {
                    if s0.widgets.in_subtree(old_id as int, p as int) {
                        s0.widgets.lemma_subtree_bounds(old_id as int, p as int);
                    }
                }
                assert(self.widgets.children@[p as int] == s0.widgets.children@[p as int]);
                assert forall|w: usize| #[trigger] self.wait_rebuilds@.contains(w) implies self.widgets.is_live(w as int)
                    && self.widgets.data@[w as int].kind == Kind::Compose by {
                    assert(s2.wait_rebuilds@.contains(w));
                }
                assert(s0.widgets.in_subtree(old_id as int, old_id as int));
                assert(!s0.widgets.in_subtree(old_id as int, p as int)) by {
                    if s0.widgets.in_subtree(old_id as int, p as int) {
                        s0.widgets.lemma_subtree_bounds(old_id as int, p as int);
                    }
                }
            }
            old_id
        } else {
            proof {
                assert(s0.widgets.in_subtree(p as int, p as int));
                assert(s0.widgets.in_subtree(p as int, old_id as int));
                s0.widgets.lemma_subtree_live(p as int, old_id as int);
            }
            self.drop_subtree(old_id);
            let ghost s1 = *self;
            proof {
                assert(!s0.widgets.in_subtree(old_id as int, p as int)) by {
                    if s0.widgets.in_subtree(old_id as int, p as int) {
                        s0.widgets.lemma_subtree_bounds(old_id as int, p as int);
                    }
                }
                let k = choose|k: int|
                    0 <= k < s0.widgets.children_of(p as int).len() && s0.widgets.children_of(p as int)[k]
                        == old_id && s1.widgets.children_of(p as int) == s0.widgets.children_of(
                        p as int,
                    ).remove(k);
                crate::arena::lemma_remove_contains(s0.widgets.children_of(p as int), k);
                assert(s1.widgets.is_live(p as int));
            }
            let nid = self.append_fresh(p, new);
            proof {
                assert forall|y: usize|
                    y < s0.widgets.len() && s0.widgets.in_subtree(old_id as int, y as int) implies !(
                    #[trigger] self.widgets.live@[y as int]) && !self.rel@.contains_key(y) && (s0.rel@.contains_key(y)
                        ==> !self.renders.live@[s0.rel@[y] as int]) by {
                    assert(!s1.widgets.live@[y as int]);
                    assert(!s1.rel@.contains_key(y));
                    if self.rel@.contains_key(y) {
                        assert(y < nid);
                    }
                    if s0.rel@.contains_key(y) {
                        assert(!s1.renders.live@[s0.rel@[y] as int]);
                        assert(s0.renders.is_live(s0.rel@[y] as int));
                    }
                }
                assert forall|y: usize| #[trigger]
                    self.rel@.contains_key(y) && y >= s0.widgets.len() implies self.rel@[y] >= s0.renders.len() by {
                    assert(!s1.rel@.contains_key(y));
                }
                crate::arena::lemma_push_contains(s1.widgets.children_of(p as int), nid);
                assert(s0.widgets.in_subtree(old_id as int, old_id as int));
                assert forall|y: usize|
                    y < s0.widgets.len() && !s0.widgets.in_subtree(old_id as int, y as int) implies (
                    #[trigger] self.rel@.contains_key(y) == s0.rel@.contains_key(y) && (s0.rel@.contains_key(y)
                        ==> self.rel@[y] == s0.rel@[y])) by {
                    assert(s1.rel@.contains_key(y) == s0.rel@.contains_key(y));
                    if self.rel@.contains_key(y) {
                        assert(s1.rel@.contains_key(y) || y >= nid);
                    }
                }
                assert forall|y: int|
                    0 <= y < s0.widgets.len() && !s0.widgets.in_subtree(old_id as int, y) && Some(y as usize)
                        != s0.widgets.parent@[old_id as int] implies #[trigger] self.widgets.children@[y]
                        == s0.widgets.children@[y] by {
                    assert(s1.widgets.children@[y] == s0.widgets.children@[y]);
                }
                assert forall|y: int|
                    0 <= y < s0.widgets.len() && !s0.widgets.in_subtree(old_id as int, y)
                        implies #[trigger] self.widgets.parent@[y] == s0.widgets.parent@[y] by {
                    assert(y != old_id);
                    assert(s1.widgets.parent@[y] == s0.widgets.parent@[y]);
                }
                assert(self.wait_rebuilds@.subset_of(s0.wait_rebuilds@)) by {
                    assert forall|w: usize| self.wait_rebuilds@.contains(w) implies s0.wait_rebuilds@.contains(w) by {
                        assert(s1.wait_rebuilds@.contains(w));
                    }
                }
                assert(!self.wait_rebuilds@.contains(old_id)) by {
                    assert(!s1.wait_rebuilds@.contains(old_id));
                }
            }
            nid
        }
    }

    /// Taking nodes off the rebuild queue keeps outside any subtree.
    proof fn lemma_kept_after_remove(&self, s2: &Reconciler, s0: &Reconciler, x: usize)
        requires
            s2.kept_outside(s0, x),
            self.widgets == s2.widgets,
            self.rel == s2.rel,
            self.root == s2.root,
            self.wait_rebuilds@ == s2.wait_rebuilds@.remove(x),
            s0.widgets.in_subtree(x as int, x as int),
        ensures
            self.kept_outside(s0, x),
    {
    }

    /// `s0` kept outside the subtree of `x` in itself, up to what an update
    /// in place of `x` changes.
    proof fn lemma_kept_refl(&self, s0: &Reconciler, x: usize)
        requires
            s0.widgets.wf(),
            x < s0.widgets.len(),
            self.widgets.len() == s0.widgets.len(),
            self.widgets.parent@ == s0.widgets.parent@,
            self.widgets.children@ == s0.widgets.children@,
            self.widgets.live@ == s0.widgets.live@,
            forall|y: int| 0 <= y < s0.widgets.len() && y != x ==> #[trigger] self.widgets.data@[y] == s0.widgets.data@[y],
            self.rel == s0.rel,
            self.wait_rebuilds == s0.wait_rebuilds,
            self.root == s0.root,
        ensures
            self.kept_outside(s0, x),
    {
        assert(s0.widgets.in_subtree(x as int, x as int));
    }

    /// Keeping outside the subtree of `c`, a node of the subtree of `x`
    /// whose parent lies in that subtree too, keeps outside the subtree of
    /// `x`.
    proof fn lemma_kept_chain(&self, s0: &Reconciler, s1: &Reconciler, x: usize, c: usize)
        requires
            s0.widgets.wf(),
            x < s0.widgets.len(),
            s1.kept_outside(s0, x),
            self.kept_outside(s1, c),
            c < s0.widgets.len(),
            s0.widgets.in_subtree(x as int, c as int),
            c == x || (s1.widgets.parent@[c as int] is Some && s0.widgets.in_subtree(
                x as int,
                s1.widgets.parent@[c as int].unwrap() as int,
            )),
            c == x ==> s1.widgets.parent@[x as int] == s0.widgets.parent@[x as int],
        ensures
            self.kept_outside(s0, x),
            c != x && s1.children_kept(s0, x) ==> self.children_kept(s0, x),
    {
        assert forall|y: int| 0 <= y < s0.widgets.len() && !s0.widgets.in_subtree(x as int, y) implies !s1.widgets.in_subtree(c as int, y) by {
            lemma_outside_stable(&s0.widgets, &s1.widgets, x as int, c as int, y);
        }
        assert forall|y: int|
            0 <= y < s0.widgets.len() && !s0.widgets.in_subtree(x as int, y) && Some(y as usize)
                != s0.widgets.parent@[x as int] implies #[trigger] self.widgets.children@[y]
                == s0.widgets.children@[y] by {
            assert(!s1.widgets.in_subtree(c as int, y));
            if c != x {
                assert(Some(y as usize) != s1.widgets.parent@[c as int]);
            }
        }
        assert forall|y: usize|
            y < s0.widgets.len() && !s0.widgets.in_subtree(x as int, y as int) implies (
            #[trigger] self.rel@.contains_key(y) == s0.rel@.contains_key(y) && (s0.rel@.contains_key(y)
                ==> self.rel@[y] == s0.rel@[y])) by {
            lemma_outside_stable(&s0.widgets, &s1.widgets, x as int, c as int, y as int);
            assert(!s1.widgets.in_subtree(c as int, y as int));
            assert(y < s1.widgets.len());
            assert(s1.rel@.contains_key(y) == s0.rel@.contains_key(y));
            assert(self.rel@.contains_key(y) == s1.rel@.contains_key(y));
            if s0.rel@.contains_key(y) {
                assert(s1.rel@[y] == s0.rel@[y]);
                assert(self.rel@[y] == s1.rel@[y]);
            }
        }
        assert(self.wait_rebuilds@.subset_of(s0.wait_rebuilds@));
        if c != x && s1.children_kept(s0, x) {
            assert forall|y: int| 0 <= y < s0.widgets.len() && !s0.widgets.in_subtree(x as int, y)
                implies #[trigger] self.widgets.children@[y] == s0.widgets.children@[y] by {
                assert(!s1.widgets.in_subtree(c as int, y));
                assert(Some(y as usize) != s1.widgets.parent@[c as int]);
            }
        }
    }

    /// Reconciles the only child of the composition or single-child node `x`
    /// with `c`, or builds `c` under `x` if `x` has no child.
    fn repair_only_child(&mut self, x: usize, c: &Widget, Ghost(s0): Ghost<Reconciler>)
        requires
            old(self).inv(),
            old(self).mirror(),
            old(self).widgets.is_live(x as int),
            old(self).widgets.data@[x as int].kind == Kind::Compose || old(self).widgets.data@[x as int].kind
                == Kind::SingleChild,
            old(self).kept_outside(&s0, x),
            s0.widgets.wf(),
            x < s0.widgets.len(),
            old(self).widgets.len() == s0.widgets.len(),
            old(self).widgets.parent@ == s0.widgets.parent@,
            old(self).widgets.children@ == s0.widgets.children@,
            old(self).widgets.len() + old(self).renders.len() + 2 * c.size() < usize::MAX,
        ensures
            final(self).inv(),
            final(self).mirror(),
            final(self).kept_outside(&s0, x),
            final(self).children_kept(&s0, x),
            final(self).widgets.len() <= old(self).widgets.len() + c.size(),
            final(self).renders.len() <= old(self).renders.len() + c.size(),
            old(self).renders.len() <= final(self).renders.len(),
            final(self).no_revival(old(self)),
            final(self).widgets.is_live(x as int),
            final(self).widgets.data@[x as int] == old(self).widgets.data@[x as int],
            final(self).widgets.parent@[x as int] == old(self).widgets.parent@[x as int],
            old(self).rel@.contains_key(x) ==> final(self).rel@.contains_key(x) && final(self).rel@[x]
                == old(self).rel@[x],
        decreases c, 1nat,
    {
        let ghost s1 = *self;
        if self.widgets.children_ref(x).len() == 1 {
            let ch = self.widgets.children_ref(x)[0];
            proof {
                assert(self.widgets.children@[x as int]@[0] == ch);
                assert(self.widgets.parent@[ch as int] == Some(x));
                assert(self.widgets.in_subtree(x as int, x as int));
                assert(self.widgets.in_subtree(x as int, ch as int));
                self.widgets.lemma_subtree_live(x as int, ch as int);
                assert(s0.widgets.in_subtree(x as int, ch as int));
            }
            self.repair_subtree(ch, c);
            proof {
                assert(s1.children_kept(&s0, x));
                self.lemma_kept_chain(&s0, &s1, x, ch);
                assert(!s1.widgets.in_subtree(ch as int, x as int)) by {
                    if s1.widgets.in_subtree(ch as int, x as int) {
                        s1.widgets.lemma_subtree_bounds(ch as int, x as int);
                    }
                }
            }
        } else {
            proof {
                assert(self.widgets.children@[x as int]@.len() <= 1);
            }
            self.append_fresh(x, c);
            proof {
                assert(s0.widgets.in_subtree(x as int, x as int));
                assert forall|y: usize|
                    y < s0.widgets.len() && !s0.widgets.in_subtree(x as int, y as int) implies (
                    #[trigger] self.rel@.contains_key(y) == s0.rel@.contains_key(y) && (s0.rel@.contains_key(y)
                        ==> self.rel@[y] == s0.rel@[y])) by {
                    assert(s1.rel@.contains_key(y) == s0.rel@.contains_key(y));
                }
                assert forall|y: int|
                    0 <= y < s0.widgets.len() && !s0.widgets.in_subtree(x as int, y) implies #[trigger] self.widgets.children@[y]
                        == s0.widgets.children@[y] by {
                    assert(y != x);
                }
            }
        }
    }

    /// In `s0`, `c` is the only child of `m` with the key that the `i`th new
    /// child carries, it matches that child, and no earlier new child
    /// carries the key.
    pub open spec fn sole_match(s0: &Reconciler, m: usize, cs: Seq<Widget>, i: int, c: usize) -> bool {
        &&& s0.widgets.children_of(m as int).contains(c)
        &&& s0.widgets.data@[c as int].matches(cs[i].node())
        &&& forall|c2: usize| #[trigger]
            s0.widgets.children_of(m as int).contains(c2) && s0.widgets.data@[c2 as int].key
                == s0.widgets.data@[c as int].key ==> c2 == c
        &&& forall|j: int| 0 <= j < i ==> (#[trigger] cs[j]).node().key != s0.widgets.data@[c as int].key
    }

    /// What keyed reconciliation of the children of `m` with `cs` leaves,
    /// compared with `s0`: each new child served in order, a sole key match
    /// served by the old node with its binding, every old child left out
    /// gone, no render node made when all new children reuse old leaves, and
    /// the render children in the order of the new children.
    pub open spec fn children_repaired(&self, s0: &Reconciler, m: usize, cs: Seq<Widget>) -> bool {
        &&& self.widgets.children_of(m as int).len() == cs.len()
        &&& forall|i: int|
            0 <= i < cs.len() ==> self.widgets.data@[self.widgets.children_of(m as int)[i] as int]
                == (#[trigger] cs[i]).node()
        &&& forall|i: int, c: usize|
            0 <= i < cs.len() && #[trigger] Self::sole_match(s0, m, cs, i, c)
                ==> self.widgets.children_of(m as int)[i] == c && self.same_binding(s0, c)
        &&& forall|c: usize| #[trigger]
            s0.widgets.children_of(m as int).contains(c) && !self.widgets.children_of(m as int).contains(c)
                ==> self.gone(s0, c)
        &&& Self::all_reused(s0, m, cs, cs.len() as int) ==> self.renders.len() == s0.renders.len()
            && self.widgets.len() == s0.widgets.len()
        &&& (forall|i: int|
            0 <= i < cs.len() ==> (#[trigger] self.down(self.widgets.children_of(m as int)[i] as int)) is Some)
            ==> self.renders.children_of(self.rel@[m] as int) == Seq::new(
            cs.len(),
            |i: int| self.rel@[self.down(self.widgets.children_of(m as int)[i] as int).unwrap()],
        )
    }

    proof fn lemma_repaired_same_base(&self, s1: &Reconciler, s0: &Reconciler, m: usize, cs: Seq<Widget>)
        requires
            self.children_repaired(s1, m, cs),
            s1.widgets == s0.widgets,
            s1.rel == s0.rel,
            s1.renders == s0.renders,
        ensures
            self.children_repaired(s0, m, cs),
    {
        assert forall|i: int, c: usize| #[trigger] Self::sole_match(s0, m, cs, i, c) implies Self::sole_match(s1, m, cs, i, c) by {}
        if Self::all_reused(s0, m, cs, cs.len() as int) {
            assert forall|k: int| 0 <= k < cs.len() implies (#[trigger] cs[k]) is Render && exists|c: usize|
                Self::sole_match(s1, m, cs, k, c) by {
                let c = choose|c: usize| Self::sole_match(s0, m, cs, k, c);
                assert(Self::sole_match(s1, m, cs, k, c));
            }
        }
        assert forall|c: usize| #[trigger]
            s0.widgets.children_of(m as int).contains(c) && !self.widgets.children_of(m as int).contains(c)
                implies self.gone(s0, c) by {
            assert(self.gone(s1, c));
        }
        assert forall|i: int, c: usize|
            0 <= i < cs.len() && #[trigger] Self::sole_match(s0, m, cs, i, c)
                implies self.widgets.children_of(m as int)[i] == c && self.same_binding(s0, c) by {
            assert(Self::sole_match(s1, m, cs, i, c));
        }
    }

    proof fn lemma_repaired_after_remove(&self, s2: &Reconciler, s0: &Reconciler, m: usize, cs: Seq<Widget>)
        requires
            s2.children_repaired(s0, m, cs),
            self.widgets == s2.widgets,
            self.renders == s2.renders,
            self.rel == s2.rel,
        ensures
            self.children_repaired(s0, m, cs),
    {
        assert forall|c: usize| #[trigger]
            s0.widgets.children_of(m as int).contains(c) && !self.widgets.children_of(m as int).contains(c)
                implies self.gone(s0, c) by {
            assert(s2.gone(s0, c));
        }
        assert forall|i: int, c: usize|
            0 <= i < cs.len() && #[trigger] Self::sole_match(s0, m, cs, i, c)
                implies self.widgets.children_of(m as int)[i] == c && self.same_binding(s0, c) by {
            assert(s2.same_binding(s0, c));
        }
        assert forall|i: int|
            0 <= i < cs.len() implies self.widgets.data@[self.widgets.children_of(m as int)[i] as int]
                == (#[trigger] cs[i]).node() by {}
        if forall|i: int|
            0 <= i < cs.len() ==> (#[trigger] self.down(self.widgets.children_of(m as int)[i] as int)) is Some {
            assert forall|i: int|
                0 <= i < cs.len() implies (#[trigger] s2.down(s2.widgets.children_of(m as int)[i] as int)) is Some by {
                assert(self.down(self.widgets.children_of(m as int)[i] as int) is Some);
            }
            assert(self.renders.children_of(self.rel@[m] as int) == Seq::new(
                cs.len(),
                |i: int| self.rel@[self.down(self.widgets.children_of(m as int)[i] as int).unwrap()],
            ));
        }
    }

    /// An update in place of `x` changes nothing that keyed reconciliation
    /// of its children reads.
    proof fn lemma_relay_update(&self, s1: &Reconciler, s0: &Reconciler, x: usize, cs: Seq<Widget>)
        requires
            s0.inv(),
            x < s0.widgets.len(),
            s1.widgets.len() == s0.widgets.len(),
            s1.widgets.children@ == s0.widgets.children@,
            s1.widgets.parent@ == s0.widgets.parent@,
            forall|y: int| 0 <= y < s0.widgets.len() && y != x ==> #[trigger] s1.widgets.data@[y] == s0.widgets.data@[y],
            s1.rel == s0.rel,
            s1.renders.len() == s0.renders.len(),
            s1.renders.live@ == s0.renders.live@,
            self.children_repaired(s1, x, cs),
        ensures
            self.children_repaired(s0, x, cs),
    {
        assert forall|c: usize| #[trigger] s0.widgets.children_of(x as int).contains(c) implies c != x by {
            s0.lemma_child_facts_wf(x, c);
        }
        assert forall|i: int, c: usize| #[trigger] Self::sole_match(s0, x, cs, i, c) implies Self::sole_match(s1, x, cs, i, c) by {
            assert(s0.widgets.children_of(x as int).contains(c));
            assert(s1.widgets.data@[c as int] == s0.widgets.data@[c as int]);
            assert forall|c2: usize| #[trigger] s1.widgets.children_of(x as int).contains(c2) && s1.widgets.data@[c2 as int].key
                == s1.widgets.data@[c as int].key implies c2 == c by {
                assert(s1.widgets.data@[c2 as int] == s0.widgets.data@[c2 as int]);
            }
        }
        assert(Self::all_reused(s0, x, cs, cs.len() as int) ==> Self::all_reused(s1, x, cs, cs.len() as int)) by {
            if Self::all_reused(s0, x, cs, cs.len() as int) {
                assert forall|k: int| 0 <= k < cs.len() implies (#[trigger] cs[k]) is Render && exists|c: usize|
                    Self::sole_match(s1, x, cs, k, c) by {
                    let c = choose|c: usize| Self::sole_match(s0, x, cs, k, c);
                    assert(Self::sole_match(s1, x, cs, k, c));
                }
            }
        }
        assert forall|c: usize| #[trigger]
            s0.widgets.children_of(x as int).contains(c) && !self.widgets.children_of(x as int).contains(c)
                implies self.gone(s0, c) by {
            assert(s1.widgets.children_of(x as int).contains(c));
            assert(self.gone(s1, c));
            assert forall|y: usize|
                y < s0.widgets.len() && s0.widgets.in_subtree(c as int, y as int) implies !(
                #[trigger] self.widgets.live@[y as int]) && !self.rel@.contains_key(y) && (s0.rel@.contains_key(y)
                    ==> !self.renders.live@[s0.rel@[y] as int]) by {
                assert(s0.widgets.same_parents(&s1.widgets));
                s0.widgets.lemma_subtree_frame(&s1.widgets, c as int, y as int);
                assert(s1.widgets.in_subtree(c as int, y as int));
                assert(!self.widgets.live@[y as int]);
                assert(s1.rel@ == s0.rel@);
            }
        }
    }

    /// Each of the first `n` new children is a render leaf that reuses an
    /// old child by key.
    pub open spec fn all_reused(s0: &Reconciler, m: usize, cs: Seq<Widget>, n: int) -> bool {
        forall|k: int|
            0 <= k < n ==> (#[trigger] cs[k]) is Render && exists|c: usize|
                Self::sole_match(s0, m, cs, k, c)
    }

    /// Node `z` keeps the render node it had in `s0`, if it had one.
    pub open spec fn same_binding(&self, s0: &Reconciler, z: usize) -> bool {
        s0.rel@.contains_key(z) ==> self.rel@.contains_key(z) && self.rel@[z] == s0.rel@[z]
    }

    /// Reconciles the children of the live multi-child node `m` with the
    /// new list `cs`, by key. Old children without a key are dropped; each
    /// new child takes the first old child left with its key, if any, and
    /// is reconciled with it, or is built afresh; old keyed children that no
    /// new child took are dropped; last, the children of `m` and the render
    /// children of its render node are put in the order of `cs`.
    pub fn repair_children_by_key(&mut self, m: usize, cs: &Vec<Widget>)
        requires
            old(self).inv(),
            old(self).mirror(),
            old(self).widgets.is_live(m as int),
            old(self).widgets.data@[m as int].kind == Kind::MultiChild,
            old(self).widgets.len() + old(self).renders.len() + 2 * crate::widget::sizes(
                cs@,
                cs@.len() as int,
            ) < usize::MAX,
        ensures
            final(self).inv(),
            final(self).mirror(),
            final(self).widgets.len() <= old(self).widgets.len() + crate::widget::sizes(
                cs@,
                cs@.len() as int,
            ),
            final(self).renders.len() <= old(self).renders.len() + crate::widget::sizes(
                cs@,
                cs@.len() as int,
            ),
            old(self).renders.len() <= final(self).renders.len(),
            final(self).no_revival(old(self)),
            final(self).kept_outside(old(self), m),
            final(self).children_kept(old(self), m),
            final(self).widgets.is_live(m as int),
            final(self).widgets.data@[m as int] == old(self).widgets.data@[m as int],
            final(self).widgets.parent@[m as int] == old(self).widgets.parent@[m as int],
            old(self).rel@.contains_key(m) ==> final(self).rel@.contains_key(m) && final(self).rel@[m]
                == old(self).rel@[m],
            final(self).widgets.children_of(m as int).len() == cs@.len(),
            forall|i: int|
                0 <= i < cs@.len() ==> final(self).widgets.data@[final(self).widgets.children_of(
                    m as int,
                )[i] as int] == (#[trigger] cs@[i]).node(),
            forall|c: usize| #[trigger]
                old(self).widgets.children_of(m as int).contains(c) && !final(self).widgets.children_of(
                    m as int,
                ).contains(c) ==> !final(self).widgets.live@[c as int] && !final(self).rel@.contains_key(c)
                    && (old(self).rel@.contains_key(c) ==> !final(self).renders.live@[old(self).rel@[c] as int]),
            forall|i: int|
                0 <= i < cs@.len() && (#[trigger] cs@[i]).node().key is None ==> {
                    let f = final(self).widgets.children_of(m as int)[i];
                    &&& f >= old(self).widgets.len()
                    &&& final(self).rel@.contains_key(f) ==> final(self).rel@[f] >= old(self).renders.len()
                },
            forall|i: int, c: usize|
                0 <= i < cs@.len() && #[trigger] Self::sole_match(old(self), m, cs@, i, c)
                    ==> final(self).widgets.children_of(m as int)[i] == c
                    && final(self).same_binding(old(self), c),
            forall|c: usize| #[trigger]
                old(self).widgets.children_of(m as int).contains(c) && !final(self).widgets.children_of(
                    m as int,
                ).contains(c) ==> final(self).gone(old(self), c),
            Self::all_reused(old(self), m, cs@, cs@.len() as int) ==> final(self).renders.len()
                == old(self).renders.len() && final(self).widgets.len() == old(self).widgets.len(),
            final(self).children_repaired(old(self), m, cs@),
            (forall|i: int|
                0 <= i < cs@.len() ==> (#[trigger] final(self).down(
                    final(self).widgets.children_of(m as int)[i] as int,
                )) is Some) ==> final(self).renders.children_of(final(self).rel@[m] as int) == Seq::new(
                cs@.len(),
                |i: int|
                    final(self).rel@[final(self).down(
                        final(self).widgets.children_of(m as int)[i] as int,
                    ).unwrap()],
            ),
        decreases cs, 1nat,
    {
        let ghost s0 = *self;
        proof {
            assert(s0.mirror_at(m as int));
            assert(s0.widgets.in_subtree(m as int, m as int));
            assert forall|k: int| 0 <= k < cs@.len() implies #[trigger] decreases_to!(*cs => cs@[k]) by {
                vstd::std_specs::vec::axiom_vec_index_decreases(*cs, k);
            }
        }
        // The old children, in their order.
        let mut snap: Vec<usize> = Vec::new();
        let n0 = self.widgets.children_ref(m).len();
        let mut j: usize = 0;
        while j < n0
            invariant
                *self == s0,
                s0.widgets.wf(),
                m < s0.widgets.len(),
                n0 == s0.widgets.children_of(m as int).len(),
                j <= n0,
                snap@ == s0.widgets.children_of(m as int).subrange(0, j as int),
            decreases n0 - j,
        {
            snap.push(self.widgets.children_ref(m)[j]);
            j += 1;
        }
        assert(snap@ == s0.widgets.children_of(m as int));
        // Drop the children without a key and set the keyed ones aside.
        let mut keyed: Vec<usize> = Vec::new();
        let mut j: usize = 0;
        while j < snap.len()
            invariant
                self.inv(),
                self.mirror(),
                self.kept_outside(&s0, m),
                self.children_kept(&s0, m),
                self.no_revival(&s0),
                s0.renders.len() <= self.renders.len(),
                s0.inv(),
                s0.widgets.in_subtree(m as int, m as int),
                self.widgets.len() == s0.widgets.len(),
                self.renders.len() == s0.renders.len(),
                self.widgets.is_live(m as int),
                self.widgets.data@[m as int] == s0.widgets.data@[m as int],
                s0.widgets.data@[m as int].kind == Kind::MultiChild,
                self.widgets.parent@[m as int] == s0.widgets.parent@[m as int],
                s0.rel@.contains_key(m),
                self.rel@.contains_key(m) && self.rel@[m] == s0.rel@[m],
                snap@ == s0.widgets.children_of(m as int),
                j <= snap@.len(),
                keyed@.no_duplicates(),
                forall|z: usize| #[trigger] keyed@.contains(z) ==> !snap@.subrange(j as int, snap@.len() as int).contains(z),
                self.widgets.data@ == s0.widgets.data@,
                forall|z: usize| #[trigger]
                    keyed@.contains(z) ==> self.same_binding(&s0, z) && s0.widgets.data@[z as int].key is Some,
                forall|q: int|
                    0 <= q < j ==> (s0.widgets.data@[(#[trigger] snap@[q]) as int].key is Some ==> keyed@.contains(snap@[q]))
                        && (s0.widgets.data@[snap@[q] as int].key is None ==> self.dead_since(&s0, snap@[q])),
                forall|q: int| j <= q < snap@.len() ==> self.same_binding(&s0, #[trigger] snap@[q]),
                forall|q: int| j <= q < snap@.len() ==> self.intact(&s0, #[trigger] snap@[q]),
                forall|z: usize| #[trigger] keyed@.contains(z) ==> self.intact(&s0, z),
                forall|q: int|
                    0 <= q < j && s0.widgets.data@[(#[trigger] snap@[q]) as int].key is None ==> self.gone(&s0, snap@[q]),
                forall|z: usize| #[trigger]
                    self.widgets.children_of(m as int).contains(z) <==> (keyed@.contains(z)
                        || snap@.subrange(j as int, snap@.len() as int).contains(z)),
                forall|z: usize| #[trigger]
                    keyed@.contains(z) ==> s0.widgets.children_of(m as int).contains(z),
            decreases snap@.len() - j,
        {
            let c = snap[j];
            let ghost sj = *self;
            let ghost rest = snap@.subrange(j as int, snap@.len() as int);
            proof {
                assert(rest[0] == c);
                assert(rest.contains(c));
                assert(rest.drop_first() == snap@.subrange(j + 1, snap@.len() as int));
                assert forall|z: usize| #[trigger] rest.contains(z) <==> (z == c || rest.drop_first().contains(z)) by {
                    if rest.contains(z) && z != c {
                        let q = choose|q: int| 0 <= q < rest.len() && rest[q] == z;
                        assert(rest.drop_first()[q - 1] == z);
                    }
                    if rest.drop_first().contains(z) {
                        let q = choose|q: int| 0 <= q < rest.drop_first().len() && rest.drop_first()[q] == z;
                        assert(rest[q + 1] == z);
                    }
                }
                assert(!rest.drop_first().contains(c)) by {
                    if rest.drop_first().contains(c) {
                        let q = choose|q: int| 0 <= q < rest.drop_first().len() && rest.drop_first()[q] == c;
                        assert(snap@[j + 1 + q] == snap@[j as int]);
                        assert(s0.widgets.children@[m as int]@.no_duplicates());
                    }
                }
                self.lemma_child_facts(m, c);
                assert(s0.widgets.children_of(m as int).contains(c));
            }
            if self.widgets.get(c).key.is_none() {
                self.drop_subtree(c);
                proof {
                    assert forall|z: usize| #[trigger] keyed@.contains(z) implies self.same_binding(&s0, z)
                        && s0.widgets.data@[z as int].key is Some by {
                        assert(sj.widgets.children_of(m as int).contains(z));
                        sj.lemma_child_facts(m, z);
                        if sj.widgets.in_subtree(c as int, z as int) {
                            sj.widgets.lemma_sibling_disjoint(c as int, z as int, z as int);
                        }
                        assert(self.rel@.contains_key(z) == sj.rel@.contains_key(z));
                    }
                    assert(sj.widgets.in_subtree(c as int, c as int));
                    assert forall|q: int| j + 1 <= q < snap@.len() implies self.same_binding(&s0, #[trigger] snap@[q]) by {
                        let z = snap@[q];
                        assert(rest[q - j] == z);
                        assert(rest.contains(z));
                        assert(sj.widgets.children_of(m as int).contains(z));
                        sj.lemma_child_facts(m, z);
                        assert(z != c) by {
                            assert(snap@[q] != snap@[j as int]);
                        }
                        if sj.widgets.in_subtree(c as int, z as int) {
                            sj.widgets.lemma_sibling_disjoint(c as int, z as int, z as int);
                        }
                        assert(self.rel@.contains_key(z) == sj.rel@.contains_key(z));
                    }
                    assert forall|q: int|
                        0 <= q < j + 1 implies (s0.widgets.data@[(#[trigger] snap@[q]) as int].key is Some ==> keyed@.contains(snap@[q]))
                            && (s0.widgets.data@[snap@[q] as int].key is None ==> self.dead_since(&s0, snap@[q])) by {
                        if q < j {
                        }
                    }
                    self.lemma_dropped_child(&s0, &sj, m, c);
                assert(!sj.widgets.in_subtree(c as int, m as int));
                assert(self.rel@.contains_key(m));
                    self.lemma_gone_convert(&sj, &s0, c);
                    assert forall|y: int| 0 <= y < sj.widgets.len() && !sj.widgets.in_subtree(c as int, y)
                        implies #[trigger] self.widgets.parent@[y] == sj.widgets.parent@[y] by {
                        assert(y != c);
                    }
                    assert forall|y: int| 0 <= y < sj.widgets.len() && !sj.widgets.live@[y]
                        implies !#[trigger] self.widgets.live@[y] by {}
                    self.lemma_after_sibling_op(&sj, &s0, m, c);
                    assert forall|q: int| j + 1 <= q < snap@.len() implies self.intact(&s0, #[trigger] snap@[q]) by {
                        let z = snap@[q];
                        assert(rest[q - j] == z);
                        assert(rest.contains(z));
                        assert(sj.widgets.children_of(m as int).contains(z));
                        sj.lemma_child_facts(m, z);
                        assert(z != c) by {
                            assert(snap@[q] != snap@[j as int]);
                        }
                        s0.lemma_child_facts(m, z);
                    }
                    assert forall|z: usize| #[trigger] keyed@.contains(z) implies self.intact(&s0, z) by {
                        assert(sj.widgets.children_of(m as int).contains(z));
                        sj.lemma_child_facts(m, z);
                        assert(s0.widgets.children_of(m as int).contains(z));
                        s0.lemma_child_facts(m, z);
                    }
                    assert forall|q: int|
                        0 <= q < j + 1 && s0.widgets.data@[(#[trigger] snap@[q]) as int].key is None implies self.gone(&s0, snap@[q]) by {
                        if q < j {
                            assert(sj.gone(&s0, snap@[q]));
                        }
                    }
                    let k = choose|k: int|
                        0 <= k < sj.widgets.children_of(m as int).len() && sj.widgets.children_of(m as int)[k]
                            == c && self.widgets.children_of(m as int) == sj.widgets.children_of(
                            m as int,
                        ).remove(k);
                    crate::arena::lemma_remove_contains(sj.widgets.children_of(m as int), k);
                }
            } else {
                proof {
                    crate::arena::lemma_push_contains(keyed@, c);
                    crate::arena::lemma_push_parts(keyed@, c);
                }
                keyed.push(c);
                proof {
                    assert(sj.same_binding(&s0, snap@[j as int]));
                    assert(sj.intact(&s0, snap@[j as int]));
                    assert forall|z: usize| #[trigger] keyed@.contains(z) implies self.intact(&s0, z) by {
                        if z != c {
                            assert(sj.intact(&s0, z));
                        }
                    }
                    assert forall|q: int|
                        0 <= q < j + 1 && s0.widgets.data@[(#[trigger] snap@[q]) as int].key is None implies self.gone(&s0, snap@[q]) by {
                    }
                    assert forall|q: int|
                        0 <= q < j + 1 implies (s0.widgets.data@[(#[trigger] snap@[q]) as int].key is Some ==> keyed@.contains(snap@[q]))
                            && (s0.widgets.data@[snap@[q] as int].key is None ==> self.dead_since(&s0, snap@[q])) by {
                        if q < j {
                        }
                    }
                }
            }
            j += 1;
        }
        proof {
            assert(snap@.subrange(j as int, snap@.len() as int) =~= Seq::<usize>::empty());
        }
        proof {
            assert forall|c: usize| #[trigger] s0.widgets.children_of(m as int).contains(c) implies
                (s0.widgets.data@[c as int].key is Some ==> keyed@.contains(c))
                && (s0.widgets.data@[c as int].key is None ==> self.dead_since(&s0, c)) by {
                let q = choose|q: int| 0 <= q < snap@.len() && snap@[q] == c;
                assert(snap@[q] == c);
            }
            assert forall|c: usize| #[trigger] s0.widgets.children_of(m as int).contains(c) implies
                keyed@.contains(c) || self.gone(&s0, c) by {
                let q = choose|q: int| 0 <= q < snap@.len() && snap@[q] == c;
                assert(snap@[q] == c);
            }
        }
        // Serve each new child, in order.
        let mut order: Vec<usize> = Vec::new();
        let mut i: usize = 0;
        while i < cs.len()
            invariant
                forall|k: int| 0 <= k < cs@.len() ==> #[trigger] decreases_to!(*cs => cs@[k]),
                self.inv(),
                self.mirror(),
                self.kept_outside(&s0, m),
                self.children_kept(&s0, m),
                self.no_revival(&s0),
                s0.renders.len() <= self.renders.len(),
                s0.inv(),
                s0.widgets.in_subtree(m as int, m as int),
                i <= cs@.len(),
                self.widgets.len() <= s0.widgets.len() + crate::widget::sizes(cs@, i as int),
                self.renders.len() <= s0.renders.len() + crate::widget::sizes(cs@, i as int),
                s0.renders.len() <= self.renders.len(),
                s0.widgets.len() + s0.renders.len() + 2 * crate::widget::sizes(cs@, cs@.len() as int)
                    < usize::MAX,
                self.widgets.is_live(m as int),
                self.widgets.data@[m as int] == s0.widgets.data@[m as int],
                s0.widgets.data@[m as int].kind == Kind::MultiChild,
                self.widgets.parent@[m as int] == s0.widgets.parent@[m as int],
                s0.rel@.contains_key(m),
                self.rel@.contains_key(m) && self.rel@[m] == s0.rel@[m],
                keyed@.no_duplicates(),
                order@.no_duplicates(),
                forall|z: usize| #[trigger] keyed@.contains(z) ==> !order@.contains(z),
                forall|z: usize| #[trigger]
                    self.widgets.children_of(m as int).contains(z) <==> (keyed@.contains(z)
                        || order@.contains(z)),
                forall|z: usize| #[trigger]
                    keyed@.contains(z) ==> s0.widgets.children_of(m as int).contains(z),
                order@.len() == i,
                forall|k: int|
                    0 <= k < i ==> self.widgets.data@[order@[k] as int] == (#[trigger] cs@[k]).node(),
                forall|z: usize| #[trigger]
                    keyed@.contains(z) ==> self.widgets.data@[z as int] == s0.widgets.data@[z as int]
                        && self.same_binding(&s0, z) && s0.widgets.data@[z as int].key is Some,
                forall|c: usize| #[trigger]
                    s0.widgets.children_of(m as int).contains(c) ==> keyed@.contains(c) || order@.contains(c)
                        || self.dead_since(&s0, c),
                forall|c: usize|
                    #![trigger s0.widgets.children_of(m as int).contains(c), self.gone(&s0, c)]
                    s0.widgets.children_of(m as int).contains(c) ==> keyed@.contains(c) || order@.contains(c)
                        || self.gone(&s0, c),
                forall|z: usize| #[trigger] keyed@.contains(z) ==> self.intact(&s0, z),
                forall|c: usize| #[trigger]
                    s0.widgets.children_of(m as int).contains(c) && s0.widgets.data@[c as int].key is Some
                        && (forall|jj: int| 0 <= jj < i ==> (#[trigger] cs@[jj]).node().key != s0.widgets.data@[c as int].key)
                        ==> keyed@.contains(c),
                forall|k: int|
                    0 <= k < i && (#[trigger] cs@[k]).node().key is None ==> order@[k] >= s0.widgets.len()
                        && (self.rel@.contains_key(order@[k]) ==> self.rel@[order@[k]] >= s0.renders.len()),
                forall|k: int, c: usize|
                    0 <= k < i && #[trigger] Self::sole_match(&s0, m, cs@, k, c) ==> order@[k] == c
                        && self.same_binding(&s0, c),
                Self::all_reused(&s0, m, cs@, i as int) ==> self.renders.len() == s0.renders.len()
                    && self.widgets.len() == s0.widgets.len(),
            decreases cs@.len() - i,
        {
            let ghost si = *self;
            let ghost o0 = order@;
            let ghost k0 = keyed@;
            proof {
                crate::widget::lemma_sizes_mono(cs@, i + 1, cs@.len() as int);
                assert(crate::widget::sizes(cs@, i + 1) == crate::widget::sizes(cs@, i as int)
                    + cs@[i as int].size());
                assert forall|z: usize| #[trigger] order@.contains(z) implies self.widgets.children_of(m as int).contains(z)
                    && z < self.widgets.len() by {
                    self.lemma_child_facts(m, z);
                }
            }
            proof {
                assert forall|q: int| 0 <= q < keyed@.len() implies (#[trigger] keyed@[q] as int) < self.widgets.len() by {
                    assert(keyed@.contains(keyed@[q]));
                    self.lemma_child_facts(m, keyed@[q]);
                }
            }
            let found = match cs[i].key() {
                Some(k) => self.find_keyed(&keyed, k),
                None => None,
            };
            match found {
                Some(pos) => {
                    let c = keyed.remove(pos);
                    proof {
                        crate::arena::lemma_remove_contains(k0, pos as int);
                        assert(k0.contains(c));
                        assert(self.widgets.children_of(m as int).contains(c));
                        self.lemma_child_facts(m, c);
                        assert(s0.widgets.children_of(m as int).contains(c));
                        s0.lemma_child_facts(m, c);
                    }
                    let nid = self.repair_subtree(c, &cs[i]);
                    proof {
                        assert(si.intact(&s0, c));
                        if nid != c {
                            self.lemma_gone_convert(&si, &s0, c);
                        }
                        self.lemma_dead_kept_outside(&si, c);
                        self.lemma_after_sibling_op(&si, &s0, m, c);
                        assert forall|z: usize| #[trigger] keyed@.contains(z) implies self.intact(&s0, z) by {
                            assert(k0.contains(z));
                            assert(si.intact(&s0, z));
                            assert(si.widgets.children_of(m as int).contains(z));
                            si.lemma_child_facts(m, z);
                            assert(s0.widgets.children_of(m as int).contains(z));
                            s0.lemma_child_facts(m, z);
                        }
                        assert forall|c0: usize| #[trigger] s0.widgets.children_of(m as int).contains(c0) implies
                            keyed@.contains(c0) || o0.push(nid).contains(c0) || self.gone(&s0, c0) by {
                            crate::arena::lemma_push_contains(o0, nid);
                            if k0.contains(c0) && c0 != c {
                            } else if c0 == c {
                            } else if o0.contains(c0) {
                            } else {
                                assert(si.gone(&s0, c0));
                            }
                        }
                        self.lemma_kept_chain(&s0, &si, m, c);
                        assert(!si.widgets.in_subtree(c as int, m as int));
                        assert(self.rel@.contains_key(m) == si.rel@.contains_key(m));
                        assert(self.rel@[m] == si.rel@[m]);
                        assert forall|k: int| 0 <= k < i implies self.widgets.data@[order@[k] as int] == (#[trigger] cs@[k]).node() by {
                            let z = order@[k];
                            assert(o0.contains(z));
                            si.lemma_child_facts(m, z);
                            if si.widgets.in_subtree(c as int, z as int) {
                                assert(si.widgets.in_subtree(z as int, z as int));
                                si.widgets.lemma_sibling_disjoint(c as int, z as int, z as int);
                            }
                        }
                        assert forall|z: usize| #[trigger] keyed@.contains(z) implies !o0.push(nid).contains(z) by {
                            crate::arena::lemma_push_contains(o0, nid);
                            assert(k0.contains(z));
                            if z == nid {
                                assert(si.widgets.children_of(m as int).contains(z));
                                si.lemma_child_facts(m, z);
                            }
                        }
                        assert forall|z: usize| #[trigger] keyed@.contains(z) implies self.widgets.data@[z as int]
                            == s0.widgets.data@[z as int] && self.same_binding(&s0, z) && s0.widgets.data@[z as int].key
                            is Some by {
                            assert(k0.contains(z));
                            assert(z != c);
                            assert(si.widgets.children_of(m as int).contains(z));
                            si.lemma_child_facts(m, z);
                            if si.widgets.in_subtree(c as int, z as int) {
                                si.widgets.lemma_sibling_disjoint(c as int, z as int, z as int);
                            }
                            assert(self.rel@.contains_key(z) == si.rel@.contains_key(z));
                        }
                        assert forall|c0: usize| #[trigger] s0.widgets.children_of(m as int).contains(c0) implies
                            keyed@.contains(c0) || o0.push(nid).contains(c0) || self.dead_since(&s0, c0) by {
                            crate::arena::lemma_push_contains(o0, nid);
                            if k0.contains(c0) && c0 != c {
                            } else if c0 == c {
                            } else if o0.contains(c0) {
                            } else {
                                assert(!si.widgets.live@[c0 as int]);
                                s0.lemma_child_facts(m, c0);
                                if si.widgets.in_subtree(c as int, c0 as int) {
                                    si.widgets.lemma_subtree_live(c as int, c0 as int);
                                }
                            }
                        }
                        crate::arena::lemma_push_contains(o0, nid);
                        crate::arena::lemma_push_parts(o0, nid);
                        if o0.contains(nid) {
                            if nid != c {
                                assert(si.widgets.children_of(m as int).contains(nid));
                                si.lemma_child_facts(m, nid);
                            }
                        }
                    }
                    order.push(nid);
                    proof {
                        assert forall|k: int| 0 <= k < i + 1 && (#[trigger] cs@[k]).node().key is None implies order@[k]
                            >= s0.widgets.len() && (self.rel@.contains_key(order@[k]) ==> self.rel@[order@[k]]
                            >= s0.renders.len()) by {
                            if k < i {
                                let z = o0[k];
                                assert(order@[k] == z);
                                assert(o0.contains(z));
                                assert(si.widgets.children_of(m as int).contains(z));
                                si.lemma_child_facts(m, z);
                                assert(z != c);
                                if si.widgets.in_subtree(c as int, z as int) {
                                    si.widgets.lemma_sibling_disjoint(c as int, z as int, z as int);
                                }
                                assert(self.rel@.contains_key(z) == si.rel@.contains_key(z));
                            }
                        }
                        assert forall|k: int, c2: usize|
                            0 <= k < i + 1 && #[trigger] Self::sole_match(&s0, m, cs@, k, c2) implies order@[k] == c2
                                && self.same_binding(&s0, c2) by {
                            if k < i {
                                assert(order@[k] == o0[k]);
                                assert(o0.contains(c2));
                                assert(si.widgets.children_of(m as int).contains(c2));
                                si.lemma_child_facts(m, c2);
                                assert(c2 != c);
                                if si.widgets.in_subtree(c as int, c2 as int) {
                                    si.widgets.lemma_sibling_disjoint(c as int, c2 as int, c2 as int);
                                }
                                assert(self.rel@.contains_key(c2) == si.rel@.contains_key(c2));
                            } else {
                                assert(k0.contains(c2));
                                assert(s0.widgets.children_of(m as int).contains(c));
                                assert(s0.widgets.data@[c as int].key == s0.widgets.data@[c2 as int].key);
                                assert(c == c2);
                            }
                        }
                    }
                },
                None => {
                    proof {
                        assert forall|c2: usize| #[trigger] Self::sole_match(&s0, m, cs@, i as int, c2) implies false by {
                            assert(k0.contains(c2));
                            let q = choose|q: int| 0 <= q < k0.len() && k0[q] == c2;
                            assert(self.widgets.data@[k0[q] as int].key == cs@[i as int].node().key);
                        }
                    }
                    let nid = self.append_fresh(m, &cs[i]);
                    proof {
                        assert forall|y: usize| y < si.widgets.len() implies (#[trigger] self.rel@.contains_key(y)
                            == si.rel@.contains_key(y) && (si.rel@.contains_key(y) ==> self.rel@[y] == si.rel@[y])) by {
                            if self.rel@.contains_key(y) {
                                assert(si.rel@.contains_key(y) || y >= nid);
                            }
                        }
                        assert forall|z: usize| #[trigger] keyed@.contains(z) implies self.intact(&s0, z) by {
                            assert(si.intact(&s0, z));
                            self.lemma_intact_extend(&si, &s0, z);
                        }
                        assert forall|y: int| 0 <= y < si.widgets.len() && !si.widgets.live@[y]
                            implies !#[trigger] self.widgets.live@[y] by {}
                        assert(self.no_revival(&si));
                        assert forall|c0: usize| #[trigger] s0.widgets.children_of(m as int).contains(c0) implies
                            keyed@.contains(c0) || o0.push(nid).contains(c0) || self.gone(&s0, c0) by {
                            crate::arena::lemma_push_contains(o0, nid);
                            if !keyed@.contains(c0) && !o0.contains(c0) {
                                assert(si.gone(&s0, c0));
                                self.lemma_gone_stays(&si, &s0, c0);
                            }
                        }
                        self.lemma_appended_child(&s0, &si, m);
                        assert(si.rel@.contains_key(m));
                        assert(self.rel@.contains_key(m));
                        assert forall|k: int| 0 <= k < i implies self.widgets.data@[o0[k] as int] == (#[trigger] cs@[k]).node() by {
                            assert(o0.contains(o0[k]));
                            assert(si.widgets.data@[o0[k] as int] == cs@[k].node());
                        }
                        crate::arena::lemma_push_contains(o0, nid);
                        crate::arena::lemma_push_parts(o0, nid);
                        crate::arena::lemma_push_contains(si.widgets.children_of(m as int), nid);
                        if o0.contains(nid) {
                            assert(si.widgets.children_of(m as int).contains(nid));
                            si.lemma_child_facts(m, nid);
                        }
                        assert forall|z: usize| #[trigger] keyed@.contains(z) implies !o0.push(nid).contains(z) by {
                            if z == nid {
                                assert(si.widgets.children_of(m as int).contains(z));
                                si.lemma_child_facts(m, z);
                            }
                        }
                        assert forall|z: usize| #[trigger] keyed@.contains(z) implies self.widgets.data@[z as int]
                            == s0.widgets.data@[z as int] && self.same_binding(&s0, z) && s0.widgets.data@[z as int].key
                            is Some by {
                            assert(si.widgets.children_of(m as int).contains(z));
                            si.lemma_child_facts(m, z);
                            assert(si.rel@.contains_key(z) ==> self.rel@.contains_key(z));
                        }
                        assert forall|c0: usize| #[trigger] s0.widgets.children_of(m as int).contains(c0) implies
                            keyed@.contains(c0) || o0.push(nid).contains(c0) || self.dead_since(&s0, c0) by {
                            if !keyed@.contains(c0) && !o0.contains(c0) {
                                s0.lemma_child_facts(m, c0);
                                assert(!si.widgets.live@[c0 as int]);
                            }
                        }
                    }
                    order.push(nid);
                    proof {
                        assert forall|k: int| 0 <= k < i + 1 && (#[trigger] cs@[k]).node().key is None implies order@[k]
                            >= s0.widgets.len() && (self.rel@.contains_key(order@[k]) ==> self.rel@[order@[k]]
                            >= s0.renders.len()) by {
                            if k < i {
                                let z = o0[k];
                                assert(order@[k] == z);
                                assert(o0.contains(z));
                                assert(si.widgets.children_of(m as int).contains(z));
                                si.lemma_child_facts(m, z);
                                if self.rel@.contains_key(z) {
                                    assert(si.rel@.contains_key(z) || z >= nid);
                                }
                            }
                        }
                        assert forall|k: int, c2: usize|
                            0 <= k < i + 1 && #[trigger] Self::sole_match(&s0, m, cs@, k, c2) implies order@[k] == c2
                                && self.same_binding(&s0, c2) by {
                            if k < i {
                                assert(order@[k] == o0[k]);
                            }
                        }
                    }
                },
            }
            proof {
                assert forall|k: int| 0 <= k < i + 1 implies self.widgets.data@[order@[k] as int] == (#[trigger] cs@[k]).node() by {
                    if k < i {
                        assert(order@[k] == o0[k]);
                    }
                }
            }
            i += 1;
        }
        // Drop the keyed children that no new child took.
        assert(keyed@.subrange(0, keyed@.len() as int) == keyed@);
        assert forall|q: int| 0 <= q < keyed@.len() implies self.same_binding(&s0, #[trigger] keyed@[q]) by {
            assert(keyed@.contains(keyed@[q]));
        }
        assert forall|c: usize| #[trigger] s0.widgets.children_of(m as int).contains(c) implies keyed@.subrange(0, keyed@.len() as int).contains(c)
            || order@.contains(c) || self.dead_since(&s0, c) by {}
        assert forall|c: usize| #[trigger] s0.widgets.children_of(m as int).contains(c) implies keyed@.subrange(0, keyed@.len() as int).contains(c)
            || order@.contains(c) || self.gone(&s0, c) by {}
        assert forall|q: int| 0 <= q < keyed@.len() implies self.intact(&s0, #[trigger] keyed@[q]) by {
            assert(keyed@.contains(keyed@[q]));
        }
        let mut j: usize = 0;
        while j < keyed.len()
            invariant
                self.inv(),
                self.mirror(),
                self.kept_outside(&s0, m),
                self.children_kept(&s0, m),
                self.no_revival(&s0),
                s0.renders.len() <= self.renders.len(),
                s0.inv(),
                s0.widgets.in_subtree(m as int, m as int),
                self.widgets.len() <= s0.widgets.len() + crate::widget::sizes(cs@, cs@.len() as int),
                self.renders.len() <= s0.renders.len() + crate::widget::sizes(cs@, cs@.len() as int),
                s0.renders.len() <= self.renders.len(),
                self.widgets.is_live(m as int),
                self.widgets.data@[m as int] == s0.widgets.data@[m as int],
                s0.widgets.data@[m as int].kind == Kind::MultiChild,
                self.widgets.parent@[m as int] == s0.widgets.parent@[m as int],
                s0.rel@.contains_key(m),
                self.rel@.contains_key(m) && self.rel@[m] == s0.rel@[m],
                keyed@.no_duplicates(),
                order@.no_duplicates(),
                j <= keyed@.len(),
                forall|z: usize| #[trigger] keyed@.contains(z) ==> !order@.contains(z),
                forall|z: usize| #[trigger]
                    self.widgets.children_of(m as int).contains(z) <==> (keyed@.subrange(j as int, keyed@.len() as int).contains(z)
                        || order@.contains(z)),
                forall|z: usize| #[trigger]
                    keyed@.contains(z) ==> s0.widgets.children_of(m as int).contains(z),
                order@.len() == cs@.len(),
                forall|k: int|
                    0 <= k < cs@.len() ==> self.widgets.data@[order@[k] as int] == (#[trigger] cs@[k]).node(),
                forall|c: usize| #[trigger]
                    s0.widgets.children_of(m as int).contains(c) ==> keyed@.subrange(j as int, keyed@.len() as int).contains(c)
                        || order@.contains(c) || self.dead_since(&s0, c),
                forall|k: int|
                    0 <= k < cs@.len() && (#[trigger] cs@[k]).node().key is None ==> order@[k] >= s0.widgets.len()
                        && (self.rel@.contains_key(order@[k]) ==> self.rel@[order@[k]] >= s0.renders.len()),
                forall|k: int, c: usize|
                    0 <= k < cs@.len() && #[trigger] Self::sole_match(&s0, m, cs@, k, c) ==> order@[k] == c
                        && self.same_binding(&s0, c),
                Self::all_reused(&s0, m, cs@, cs@.len() as int) ==> self.renders.len() == s0.renders.len()
                    && self.widgets.len() == s0.widgets.len(),
                forall|q: int| j <= q < keyed@.len() ==> self.same_binding(&s0, #[trigger] keyed@[q]),
                forall|q: int| j <= q < keyed@.len() ==> self.intact(&s0, #[trigger] keyed@[q]),
                forall|c: usize|
                    #![trigger s0.widgets.children_of(m as int).contains(c), self.gone(&s0, c)]
                    s0.widgets.children_of(m as int).contains(c) ==> keyed@.subrange(j as int, keyed@.len() as int).contains(c)
                        || order@.contains(c) || self.gone(&s0, c),
            decreases keyed@.len() - j,
        {
            let c = keyed[j];
            let ghost sj = *self;
            let ghost rest = keyed@.subrange(j as int, keyed@.len() as int);
            let ghost tail = keyed@.subrange(j + 1, keyed@.len() as int);
            proof {
                assert(rest[0] == c);
                assert(keyed@.contains(c));
                assert forall|z: usize| #[trigger] rest.contains(z) <==> (z == c || tail.contains(z)) by {
                    if rest.contains(z) && z != c {
                        let q = choose|q: int| 0 <= q < rest.len() && rest[q] == z;
                        assert(tail[q - 1] == z);
                    }
                    if tail.contains(z) {
                        let q = choose|q: int| 0 <= q < tail.len() && tail[q] == z;
                        assert(rest[q + 1] == z);
                    }
                }
                assert(!tail.contains(c)) by {
                    if tail.contains(c) {
                        let q = choose|q: int| 0 <= q < tail.len() && tail[q] == c;
                        assert(keyed@[j + 1 + q] == keyed@[j as int]);
                    }
                }
                assert(rest.contains(c));
                self.lemma_child_facts(m, c);
                s0.lemma_child_facts(m, c);
            }
            self.drop_subtree(c);
            proof {
                self.lemma_dropped_child(&s0, &sj, m, c);
                assert(!sj.widgets.in_subtree(c as int, m as int));
                assert(self.rel@.contains_key(m));
                assert(!order@.contains(c));
                assert(sj.intact(&s0, c));
                self.lemma_gone_convert(&sj, &s0, c);
                assert forall|y: int| 0 <= y < sj.widgets.len() && !sj.widgets.in_subtree(c as int, y)
                    implies #[trigger] self.widgets.parent@[y] == sj.widgets.parent@[y] by {
                    assert(y != c);
                }
                assert forall|y: int| 0 <= y < sj.widgets.len() && !sj.widgets.live@[y]
                    implies !#[trigger] self.widgets.live@[y] by {}
                self.lemma_after_sibling_op(&sj, &s0, m, c);
                assert forall|q: int| j + 1 <= q < keyed@.len() implies self.intact(&s0, #[trigger] keyed@[q]) by {
                    let z = keyed@[q];
                    assert(sj.intact(&s0, z));
                    assert(tail[q - j - 1] == z);
                    assert(rest.contains(z));
                    assert(sj.widgets.children_of(m as int).contains(z));
                    sj.lemma_child_facts(m, z);
                    assert(z != c) by {
                        assert(keyed@[q] != keyed@[j as int]);
                    }
                    assert(keyed@.contains(z));
                    s0.lemma_child_facts(m, z);
                }
                assert forall|c0: usize| #[trigger] s0.widgets.children_of(m as int).contains(c0) implies
                    tail.contains(c0) || order@.contains(c0) || self.gone(&s0, c0) by {
                    if rest.contains(c0) && c0 != c {
                    } else if c0 == c {
                    } else if order@.contains(c0) {
                    } else {
                        assert(sj.gone(&s0, c0));
                    }
                }
                assert(sj.same_binding(&s0, keyed@[j as int]));
                assert forall|q: int| j + 1 <= q < keyed@.len() implies self.same_binding(&s0, #[trigger] keyed@[q]) by {
                    let z = keyed@[q];
                    assert(sj.same_binding(&s0, z));
                    assert(tail[q - j - 1] == z);
                    assert(rest.contains(z));
                    assert(sj.widgets.children_of(m as int).contains(z));
                    sj.lemma_child_facts(m, z);
                    assert(z != c) by {
                        assert(keyed@[q] != keyed@[j as int]);
                    }
                    if sj.widgets.in_subtree(c as int, z as int) {
                        sj.widgets.lemma_sibling_disjoint(c as int, z as int, z as int);
                    }
                    assert(self.rel@.contains_key(z) == sj.rel@.contains_key(z));
                }
                assert forall|c0: usize| #[trigger] s0.widgets.children_of(m as int).contains(c0) implies
                    tail.contains(c0) || order@.contains(c0) || self.dead_since(&s0, c0) by {
                    s0.lemma_child_facts(m, c0);
                    if rest.contains(c0) && c0 != c {
                    } else if c0 == c {
                        assert(sj.widgets.in_subtree(c as int, c as int));
                        assert(c < sj.widgets.len());
                        if s0.rel@.contains_key(c) {
                            assert(sj.rel@.contains_key(c) && sj.rel@[c] == s0.rel@[c]);
                            assert(self.gone(&sj, c));
                            assert(!self.widgets.live@[c as int]);
                            assert(!self.renders.live@[sj.rel@[c] as int]);
                        }
                    } else if order@.contains(c0) {
                    } else {
                        assert(sj.dead_since(&s0, c0));
                        assert(!sj.widgets.live@[c0 as int]);
                        if s0.rel@.contains_key(c0) {
                            assert(s0.renders.is_live(s0.rel@[c0] as int));
                            assert(!sj.renders.live@[s0.rel@[c0] as int]);
                        }
                    }
                }
                assert forall|k: int|
                    0 <= k < cs@.len() && (#[trigger] cs@[k]).node().key is None implies order@[k] >= s0.widgets.len()
                        && (self.rel@.contains_key(order@[k]) ==> self.rel@[order@[k]] >= s0.renders.len()) by {
                    let z = order@[k];
                    assert(order@.contains(z));
                    assert(sj.widgets.children_of(m as int).contains(z));
                    sj.lemma_child_facts(m, z);
                    if sj.widgets.in_subtree(c as int, z as int) {
                        sj.widgets.lemma_sibling_disjoint(c as int, z as int, z as int);
                    }
                    assert(self.rel@.contains_key(z) == sj.rel@.contains_key(z));
                }
                assert forall|k: int, c2: usize|
                    0 <= k < cs@.len() && #[trigger] Self::sole_match(&s0, m, cs@, k, c2) implies order@[k] == c2
                        && self.same_binding(&s0, c2) by {
                    assert(order@.contains(c2));
                    assert(sj.widgets.children_of(m as int).contains(c2));
                    sj.lemma_child_facts(m, c2);
                    if sj.widgets.in_subtree(c as int, c2 as int) {
                        sj.widgets.lemma_sibling_disjoint(c as int, c2 as int, c2 as int);
                    }
                    assert(self.rel@.contains_key(c2) == sj.rel@.contains_key(c2));
                }
                let k = choose|k: int|
                    0 <= k < sj.widgets.children_of(m as int).len() && sj.widgets.children_of(m as int)[k]
                        == c && self.widgets.children_of(m as int) == sj.widgets.children_of(
                        m as int,
                    ).remove(k);
                crate::arena::lemma_remove_contains(sj.widgets.children_of(m as int), k);
                assert(!sj.widgets.in_subtree(c as int, m as int));
            }
            j += 1;
        }
        proof {
            assert(keyed@.subrange(j as int, keyed@.len() as int) =~= Seq::<usize>::empty());
        }
        let ghost s3 = *self;
        let ghost ord = order@;
        self.reorder_children(m, order);
        proof {
            assert forall|c: usize| #[trigger]
                s0.widgets.children_of(m as int).contains(c) && !self.widgets.children_of(m as int).contains(c)
                    implies self.gone(&s0, c) by {
                assert(keyed@.subrange(j as int, keyed@.len() as int).len() == 0);
                assert(s3.gone(&s0, c));
                assert forall|y: usize|
                    y < s0.widgets.len() && s0.widgets.in_subtree(c as int, y as int) implies !(
                    #[trigger] self.widgets.live@[y as int]) && !self.rel@.contains_key(y) && (s0.rel@.contains_key(y)
                        ==> !self.renders.live@[s0.rel@[y] as int]) by {
                    assert(!s3.widgets.live@[y as int]);
                }
            }
            assert forall|c: usize| #[trigger]
                s0.widgets.children_of(m as int).contains(c) && !self.widgets.children_of(m as int).contains(c)
                    implies !self.widgets.live@[c as int] && !self.rel@.contains_key(c)
                    && (s0.rel@.contains_key(c) ==> !self.renders.live@[s0.rel@[c] as int]) by {
                assert(keyed@.subrange(j as int, keyed@.len() as int).len() == 0);
                assert(!s3.widgets.live@[c as int]);
                s0.lemma_child_facts(m, c);
                if self.rel@.contains_key(c) {
                    assert(self.widgets.is_live(c as int));
                }
            }
            assert forall|i: int, c: usize|
                0 <= i < cs@.len() && #[trigger] Self::sole_match(&s0, m, cs@, i, c)
                    implies self.widgets.children_of(m as int)[i] == c && self.same_binding(&s0, c) by {
                assert(ord[i] == c);
            }
            if forall|i: int| 0 <= i < cs@.len() ==> (#[trigger] self.down(self.widgets.children_of(m as int)[i] as int)) is Some {
                assert forall|i: int| 0 <= i < ord.len() implies (#[trigger] s3.down(ord[i] as int)) is Some by {
                    assert(self.down(self.widgets.children_of(m as int)[i] as int) is Some);
                    assert(s3.widgets.children_of(m as int).contains(ord[i]));
                    s3.lemma_child_facts(m, ord[i]);
                    lemma_down_frame(&s3.widgets, &self.widgets, m as int, ord[i] as int);
                }
                assert forall|i: int| 0 <= i < ord.len() implies #[trigger] s3.down(ord[i] as int) == self.down(ord[i] as int) by {
                    assert(s3.widgets.children_of(m as int).contains(ord[i]));
                    s3.lemma_child_facts(m, ord[i]);
                    lemma_down_frame(&s3.widgets, &self.widgets, m as int, ord[i] as int);
                }
                assert(self.renders.children_of(self.rel@[m] as int) =~= Seq::new(
                    cs@.len(),
                    |i: int| self.rel@[self.down(self.widgets.children_of(m as int)[i] as int).unwrap()],
                ));
            }
            assert forall|y: int|
                0 <= y < s0.widgets.len() && !s0.widgets.in_subtree(m as int, y) && Some(y as usize)
                    != s0.widgets.parent@[m as int] implies #[trigger] self.widgets.children@[y]
                    == s0.widgets.children@[y] by {
                assert(y != m);
                assert(s3.widgets.children@[y] == s0.widgets.children@[y]);
            }
        }
    }

    /// The position of the first node of `keyed` whose key is `k`.
    fn find_keyed(&self, keyed: &Vec<usize>, k: crate::widget::Key) -> (pos: Option<usize>)
        requires
            self.widgets.wf(),
            forall|q: int| 0 <= q < keyed@.len() ==> (#[trigger] keyed@[q] as int) < self.widgets.len(),
        ensures
            pos matches Some(q) ==> q < keyed@.len() && self.widgets.data@[keyed@[q as int] as int].key
                == Some(k),
            pos matches Some(q) ==> forall|r: int|
                0 <= r < q ==> self.widgets.data@[(#[trigger] keyed@[r]) as int].key != Some(k),
            pos is None ==> forall|r: int|
                0 <= r < keyed@.len() ==> self.widgets.data@[(#[trigger] keyed@[r]) as int].key != Some(k),
    {
        let mut q: usize = 0;
        while q < keyed.len()
            invariant
                self.widgets.wf(),
                forall|r: int| 0 <= r < keyed@.len() ==> (#[trigger] keyed@[r] as int) < self.widgets.len(),
                q <= keyed@.len(),
                forall|r: int|
                    0 <= r < q ==> self.widgets.data@[(#[trigger] keyed@[r]) as int].key != Some(k),
            decreases keyed@.len() - q,
        {
            match self.widgets.get(keyed[q]).key {
                Some(k2) => {
                    if k2.0 == k.0 {
                        return Some(q);
                    }
                },
                None => {},
            }
            q += 1;
        }
        None
    }

    /// Appending a fresh child to `m` keeps outside the subtree of `m`.
    proof fn lemma_appended_child(&self, s0: &Reconciler, si: &Reconciler, m: usize)
        requires
            si.kept_outside(s0, m),
            s0.widgets.in_subtree(m as int, m as int),
            si.widgets.same_parents(&self.widgets),
            forall|i: int|
                0 <= i < si.widgets.len() ==> #[trigger] self.widgets.data@[i] == si.widgets.data@[i],
            forall|i: int|
                0 <= i < si.widgets.len() ==> #[trigger] self.widgets.live@[i] == si.widgets.live@[i],
            forall|i: int|
                0 <= i < si.widgets.len() && i != m ==> #[trigger] self.widgets.children@[i]
                    == si.widgets.children@[i],
            forall|y: usize| #[trigger]
                si.rel@.contains_key(y) ==> self.rel@.contains_key(y) && self.rel@[y] == si.rel@[y],
            forall|y: usize| #[trigger]
                self.rel@.contains_key(y) ==> si.rel@.contains_key(y) || y >= si.widgets.len(),
            self.wait_rebuilds == si.wait_rebuilds,
            self.root == si.root,
        ensures
            self.kept_outside(s0, m),
    {
        assert forall|y: usize|
            y < s0.widgets.len() && !s0.widgets.in_subtree(m as int, y as int) implies (
            #[trigger] self.rel@.contains_key(y) == s0.rel@.contains_key(y) && (s0.rel@.contains_key(y)
                ==> self.rel@[y] == s0.rel@[y])) by {
            assert(si.rel@.contains_key(y) == s0.rel@.contains_key(y));
        }
        assert forall|y: int|
            0 <= y < s0.widgets.len() && !s0.widgets.in_subtree(m as int, y) && Some(y as usize)
                != s0.widgets.parent@[m as int] implies #[trigger] self.widgets.children@[y]
                == s0.widgets.children@[y] by {
            assert(y != m);
        }
    }

    /// A child lies above its parent in the arena.
    proof fn lemma_child_facts_wf(&self, m: usize, c: usize)
        requires
            self.widgets.wf(),
            m < self.widgets.len(),
            self.widgets.children_of(m as int).contains(c),
        ensures
            m < c,
    {
        let k = choose|k: int| 0 <= k < self.widgets.children_of(m as int).len() && self.widgets.children_of(m as int)[k] == c;
        assert(self.widgets.children@[m as int]@[k] == c);
    }

    /// Facts about a child `c` of the live node `m`.
    proof fn lemma_child_facts(&self, m: usize, c: usize)
        requires
            self.inv(),
            self.widgets.is_live(m as int),
            m < self.widgets.len(),
            self.widgets.children_of(m as int).contains(c),
        ensures
            self.widgets.is_live(c as int),
            self.widgets.parent@[c as int] == Some(m),
            m < c,
            self.widgets.in_subtree(m as int, c as int),
            !self.widgets.in_subtree(c as int, m as int),
    {
        let k = choose|k: int| 0 <= k < self.widgets.children_of(m as int).len() && self.widgets.children_of(m as int)[k] == c;
        assert(self.widgets.children@[m as int]@[k] == c);
        assert(self.widgets.in_subtree(m as int, m as int));
        self.widgets.lemma_subtree_live(m as int, c as int);
        if self.widgets.in_subtree(c as int, m as int) {
            self.widgets.lemma_subtree_bounds(c as int, m as int);
        }
    }

    /// Dropping the child `c` of `m` keeps outside the subtree of `m`.
    proof fn lemma_dropped_child(&self, s0: &Reconciler, sj: &Reconciler, m: usize, c: usize)
        requires
            s0.inv(),
            sj.kept_outside(s0, m),
            sj.children_kept(s0, m),
            sj.inv(),
            s0.widgets.len() <= sj.widgets.len(),
            sj.widgets.is_live(c as int),
            sj.widgets.parent@[c as int] == Some(m),
            s0.widgets.in_subtree(m as int, c as int),
            self.widgets.len() == sj.widgets.len(),
            self.widgets.data@ == sj.widgets.data@,
            self.widgets.parent@ == sj.widgets.parent@.update(c as int, None),
            forall|i: int|
                0 <= i < sj.widgets.len() && Some(i as usize) != sj.widgets.parent@[c as int]
                    ==> #[trigger] self.widgets.children@[i] == sj.widgets.children@[i],
            forall|y: int|
                0 <= y < sj.widgets.len() ==> #[trigger] self.widgets.live@[y] == (sj.widgets.live@[y]
                    && !sj.widgets.in_subtree(c as int, y)),
            forall|y: usize|
                #![trigger self.rel@.contains_key(y)]
                self.rel@.contains_key(y) == (sj.rel@.contains_key(y) && !sj.widgets.in_subtree(
                    c as int,
                    y as int,
                )),
            forall|y: usize| #[trigger]
                self.rel@.contains_key(y) ==> self.rel@[y] == sj.rel@[y],
            self.wait_rebuilds@ == sj.wait_rebuilds@.filter(
                |y: usize| !sj.widgets.in_subtree(c as int, y as int),
            ),
            self.root == sj.root,
        ensures
            self.kept_outside(s0, m),
            self.children_kept(s0, m),
    {
        assert forall|y: int| 0 <= y < s0.widgets.len() && !s0.widgets.in_subtree(m as int, y) implies !sj.widgets.in_subtree(c as int, y) by {
            lemma_outside_stable(&s0.widgets, &sj.widgets, m as int, c as int, y);
        }
        assert forall|y: int|
            0 <= y < s0.widgets.len() && !s0.widgets.in_subtree(m as int, y)
                implies #[trigger] self.widgets.parent@[y] == s0.widgets.parent@[y] by {
            assert(!sj.widgets.in_subtree(c as int, y));
        }
        assert forall|y: int|
            0 <= y < s0.widgets.len() && !s0.widgets.in_subtree(m as int, y)
                implies #[trigger] self.widgets.live@[y] == s0.widgets.live@[y] by {
            assert(!sj.widgets.in_subtree(c as int, y));
        }
        assert forall|y: int|
            0 <= y < s0.widgets.len() && !s0.widgets.in_subtree(m as int, y) implies #[trigger] self.widgets.children@[y]
                == s0.widgets.children@[y] by {
            assert(!sj.widgets.in_subtree(c as int, y));
            assert(y != m);
        }
        assert forall|y: usize|
            y < s0.widgets.len() && !s0.widgets.in_subtree(m as int, y as int) implies (
            #[trigger] self.rel@.contains_key(y) == s0.rel@.contains_key(y) && (s0.rel@.contains_key(y)
                ==> self.rel@[y] == s0.rel@[y])) by {
            lemma_outside_stable(&s0.widgets, &sj.widgets, m as int, c as int, y as int);
            assert(!sj.widgets.in_subtree(c as int, y as int));
            assert(sj.rel@.contains_key(y) == s0.rel@.contains_key(y));
            assert(self.rel@.contains_key(y) == sj.rel@.contains_key(y));
            if s0.rel@.contains_key(y) {
                assert(sj.rel@[y] == s0.rel@[y]);
                assert(self.rel@[y] == sj.rel@[y]);
            }
        }
        assert(self.wait_rebuilds@.subset_of(s0.wait_rebuilds@)) by {
            assert forall|w: usize| self.wait_rebuilds@.contains(w) implies s0.wait_rebuilds@.contains(w) by {
                assert(sj.wait_rebuilds@.contains(w));
            }
        }
    }

    /// `t` waits for a rebuild, lies on or above `x`, and has no waiting
    /// node above it.
    pub open spec fn topmost(&self, x: usize, t: usize) -> bool {
        &&& self.wait_rebuilds@.contains(t)
        &&& self.widgets.in_subtree(t as int, x as int)
        &&& forall|y: usize| #[trigger]
            self.wait_rebuilds@.contains(y) && self.widgets.in_subtree(y as int, t as int) ==> y == t
    }

    /// The highest node among `x` and its ancestors that waits for a
    /// rebuild. A rebuild request of a node is thus taken over by a waiting
    /// ancestor.
    pub fn topmost_pending(&self, x: usize) -> (t: usize)
        requires
            self.inv(),
            self.widgets.is_live(x as int),
            self.wait_rebuilds@.contains(x),
        ensures
            self.topmost(x, t),
    {
        let a = self.widgets.ancestors(x);
        let mut best: usize = x;
        let ghost mut bj: int = 0;
        let mut k: usize = 1;
        assert(self.widgets.in_subtree(x as int, x as int));
        while k < a.len()
            invariant
                self.inv(),
                a@.len() > 0,
                a@[0] == x,
                forall|q: int| 0 <= q < a@.len() - 1 ==> self.widgets.parent_of(#[trigger] a@[q] as int) == Some(a@[q + 1]),
                forall|q: int| 0 <= q < a@.len() ==> (#[trigger] a@[q] as int) < self.widgets.len(),
                1 <= k <= a@.len(),
                0 <= bj < k,
                a@[bj] == best,
                self.wait_rebuilds@.contains(best),
                forall|q: int| bj < q < k ==> !self.wait_rebuilds@.contains(#[trigger] a@[q]),
                forall|q: int| 0 <= q < k ==> self.widgets.in_subtree(#[trigger] a@[q] as int, x as int),
            decreases a@.len() - k,
        {
            proof {
                let prev = a@[k - 1] as int;
                assert(self.widgets.parent_of(prev) == Some(a@[k as int]));
                assert(self.widgets.in_subtree(prev, x as int));
                assert(self.widgets.parent@[prev] == Some(a@[k as int]));
                assert((a@[k as int] as int) < prev);
                assert(self.widgets.in_subtree(a@[k as int] as int, a@[k as int] as int));
                assert(self.widgets.in_subtree(a@[k as int] as int, prev));
                self.widgets.lemma_subtree_trans(a@[k as int] as int, prev, x as int);
            }
            if self.wait_rebuilds.contains(a[k]) {
                best = a[k];
                proof {
                    bj = k as int;
                }
            }
            k += 1;
        }
        proof {
            assert forall|y: usize| #[trigger]
                self.wait_rebuilds@.contains(y) && self.widgets.in_subtree(y as int, best as int) implies y == best by {
                self.widgets.lemma_on_chain(a@, bj, y as int);
            }
        }
        best
    }

    /// A render-capable ancestor `u` of `w` lies on or above the nearest
    /// render-capable ancestor of `w`.
    proof fn lemma_up_below_ancestor(&self, u: int, w: int)
        requires
            self.widgets.wf(),
            0 <= w < self.widgets.len(),
            self.widgets.in_subtree(u, w),
            u != w,
            self.renders_at(u),
        ensures
            self.up(w) is Some,
            self.widgets.in_subtree(u, self.up(w).unwrap() as int),
        decreases w,
    {
        let p = self.widgets.parent@[w].unwrap() as int;
        if !self.renders_at(p) {
            assert(p != u);
            self.lemma_up_below_ancestor(u, p);
        }
    }

    /// With the render tree mirroring the widget tree, the render node of a
    /// live render-capable widget lies under the render node of each of its
    /// render-capable ancestors: render ancestry follows widget ancestry.
    pub proof fn lemma_render_ancestry(&self, u: usize, w: usize)
        requires
            self.inv(),
            self.mirror(),
            self.widgets.is_live(w as int),
            self.renders_at(w as int),
            self.renders_at(u as int),
            self.widgets.in_subtree(u as int, w as int),
        ensures
            self.rel@.contains_key(u),
            self.rel@.contains_key(w),
            self.renders.in_subtree(self.rel@[u] as int, self.rel@[w] as int),
        decreases w,
    {
        assert(self.mirror_at(w as int));
        if u != w {
            self.lemma_up_below_ancestor(u as int, w as int);
            let v = self.up(w as int).unwrap();
            lemma_up_above(&self.widgets, w as int);
            self.widgets.lemma_subtree_live(v as int, w as int);
            self.widgets.lemma_subtree_bounds(u as int, v as int);
            self.lemma_render_ancestry(u, v);
            let rw = self.rel@[w] as int;
            assert(self.renders.parent@[rw] == Some(self.rel@[v]));
            assert(self.renders.is_live(rw));
        } else {
            assert(self.renders.in_subtree(self.rel@[u] as int, self.rel@[u] as int));
        }
    }

    /// A queued node below another queued node is never the one picked for
    /// a rebuild, and the rebuild of the node picked takes every queued node
    /// of its subtree off the queue: a descendant's request is covered by
    /// its ancestor's rebuild and never served on its own.
    pub proof fn lemma_ancestor_subsumes(s: &Reconciler, x: usize, y: usize, p: usize, t: usize)
        requires
            s.wait_rebuilds@.contains(x),
            s.wait_rebuilds@.contains(y),
            s.widgets.in_subtree(x as int, y as int),
            x != y,
            s.topmost(p, t),
        ensures
            t != y,
            s.widgets.in_subtree(t as int, x as int) ==> s.widgets.in_subtree(t as int, y as int),
    {
        if s.widgets.in_subtree(t as int, x as int) {
            s.widgets.lemma_subtree_trans(t as int, x as int, y as int);
        }
    }

    /// The arenas can take a subtree of the size of `built` without their
    /// lengths passing `usize::MAX`.
    pub open spec fn has_room(&self, built: &Widget) -> bool {
        self.widgets.len() + self.renders.len() + 2 * built.size() < usize::MAX
    }

    /// What a rebuild of the waiting composition `x` with the built child
    /// `built` leaves, compared with `s0`: the queue loses exactly the
    /// subtree of `x`, the links above and beside that subtree stay, and `x`
    /// has one child, whose value is that of `built`.
    pub open spec fn rebuilt_from(&self, s0: &Reconciler, x: usize, built: &Widget) -> bool {
        &&& self.wait_rebuilds@.subset_of(s0.wait_rebuilds@)
        &&& forall|y: usize| #[trigger]
            self.wait_rebuilds@.contains(y) ==> !s0.widgets.in_subtree(x as int, y as int)
        &&& forall|y: usize|
            y < s0.widgets.len() ==> (#[trigger] self.wait_rebuilds@.contains(y) == (
            s0.wait_rebuilds@.contains(y) && !s0.widgets.in_subtree(x as int, y as int)))
        &&& forall|y: int|
            0 <= y < s0.widgets.len() && (y == x || !s0.widgets.in_subtree(x as int, y))
                ==> #[trigger] self.widgets.parent@[y] == s0.widgets.parent@[y]
        &&& s0.widgets.len() <= self.widgets.len()
        &&& self.widgets.is_live(x as int)
        &&& self.widgets.children_of(x as int).len() == 1
        &&& self.widgets.data@[self.widgets.children_of(x as int)[0] as int] == built.node()
        &&& self.root == s0.root
        &&& s0.widgets.children_of(x as int).len() == 1 && self.widgets.children_of(x as int)[0]
            != s0.widgets.children_of(x as int)[0] ==> {
            &&& self.gone(s0, s0.widgets.children_of(x as int)[0])
            &&& self.widgets.children_of(x as int)[0] >= s0.widgets.len()
            &&& forall|y: usize| #[trigger]
                self.rel@.contains_key(y) && y >= s0.widgets.len() ==> self.rel@[y] >= s0.renders.len()
        }
        &&& match *built {
            Widget::MultiChild(_, cs) => s0.widgets.children_of(x as int).len() == 1
                && self.widgets.children_of(x as int)[0] == s0.widgets.children_of(x as int)[0]
                ==> self.children_repaired(s0, s0.widgets.children_of(x as int)[0], cs@),
            _ => true,
        }
    }

    /// Rebuilds the waiting composition `x` with its built child `built` if
    /// the arenas have room for it; otherwise leaves everything as it is and
    /// reports the size of `built`.
    pub fn try_rebuild(&mut self, x: usize, built: &Widget) -> (r: Result<(), ArenaFull>)
        requires
            old(self).inv(),
            old(self).mirror(),
            old(self).wait_rebuilds@.contains(x),
        ensures
            final(self).inv(),
            final(self).mirror(),
            r is Ok <==> old(self).has_room(built),
            r is Ok ==> final(self).rebuilt_from(old(self), x, built),
            r matches Err(e) ==> *final(self) == *old(self) && e.size == (if built.size() < usize::MAX {
                built.size()
            } else {
                usize::MAX as nat
            }),
    {
        let n = built.count();
        let wl = self.widgets.len_exec();
        let rl = self.renders.len_exec();
        let room = usize::MAX - wl;
        if rl >= room {
            return Err(ArenaFull { size: n });
        }
        let room = room - rl;
        if n >= room / 2 + room % 2 {
            return Err(ArenaFull { size: n });
        }
        self.rebuild(x, built);
        Ok(())
    }

    /// Rebuilds the waiting composition `x` with its newly built child
    /// `built`: every waiting node in the subtree of `x` is taken off the
    /// queue first, since this rebuild covers it, then the old child is
    /// reconciled with `built`.
    pub fn rebuild(&mut self, x: usize, built: &Widget)
        requires
            old(self).inv(),
            old(self).mirror(),
            old(self).wait_rebuilds@.contains(x),
            old(self).has_room(built),
        ensures
            final(self).inv(),
            final(self).mirror(),
            final(self).rebuilt_from(old(self), x, built),
    {
        let ghost s0 = *self;
        let ws = self.widgets.subtree(x);
        let mut k: usize = 0;
        while k < ws.len()
            invariant
                self.inv(),
                self.mirror(),
                self.widgets == s0.widgets,
                self.renders == s0.renders,
                self.rel == s0.rel,
                self.root == s0.root,
                k <= ws@.len(),
                self.wait_rebuilds@ == s0.wait_rebuilds@.filter(|y: usize| !ws@.subrange(0, k as int).contains(y)),
            decreases ws@.len() - k,
        {
            let ghost sk = *self;
            self.wait_rebuilds.remove(ws[k]);
            proof {
                let pre = ws@.subrange(0, k as int);
                assert(ws@.subrange(0, k + 1) == pre.push(ws@[k as int]));
                crate::arena::lemma_push_contains(pre, ws@[k as int]);
                assert(self.wait_rebuilds@ =~= s0.wait_rebuilds@.filter(|y: usize| !ws@.subrange(0, k + 1).contains(y)));
                assert forall|w: usize| #[trigger] self.wait_rebuilds@.contains(w) implies self.widgets.is_live(w as int)
                    && self.widgets.data@[w as int].kind == Kind::Compose by {
                    assert(sk.wait_rebuilds@.contains(w));
                }
                assert forall|w: int| 0 <= w < self.widgets.len() implies #[trigger] self.mirror_at(w) by {
                    assert(sk.mirror_at(w));
                }
            }
            k += 1;
        }
        proof {
            assert(ws@.subrange(0, k as int) == ws@);
            assert(s0.widgets.is_live(x as int));
            assert(self.widgets.data@[x as int].kind == Kind::Compose);
        }
        let ghost s1 = *self;
        if self.widgets.children_ref(x).len() == 1 {
            let ch = self.widgets.children_ref(x)[0];
            proof {
                assert(self.widgets.children_of(x as int).contains(ch));
                self.lemma_child_facts(x, ch);
            }
            let nid = self.repair_subtree(ch, built);
            proof {
                if let Widget::MultiChild(_, cs) = built {
                    if nid == ch {
                        self.lemma_repaired_same_base(&s1, &s0, ch, cs@);
                    }
                }
                assert(s1.widgets == s0.widgets);
                assert(s0.widgets.in_subtree(x as int, ch as int));
                assert forall|y: usize| y < s0.widgets.len() implies (#[trigger] self.wait_rebuilds@.contains(y) == (
                    s0.wait_rebuilds@.contains(y) && !s0.widgets.in_subtree(x as int, y as int))) by {
                    assert(s1.wait_rebuilds@.contains(y) == (s0.wait_rebuilds@.contains(y) && !ws@.contains(y)));
                    if s1.widgets.in_subtree(ch as int, y as int) {
                        s0.widgets.lemma_subtree_trans(x as int, ch as int, y as int);
                        assert(!s1.wait_rebuilds@.contains(y));
                        if self.wait_rebuilds@.contains(y) {
                            assert(s1.wait_rebuilds@.contains(y));
                        }
                    } else {
                        assert(self.wait_rebuilds@.contains(y) == s1.wait_rebuilds@.contains(y));
                    }
                }
                assert forall|y: int|
                    0 <= y < s0.widgets.len() && (y == x || !s0.widgets.in_subtree(x as int, y))
                        implies #[trigger] self.widgets.parent@[y] == s0.widgets.parent@[y] by {
                    if s1.widgets.in_subtree(ch as int, y) {
                        s0.widgets.lemma_subtree_trans(x as int, ch as int, y);
                        if y == x {
                            s0.widgets.lemma_subtree_bounds(ch as int, x as int);
                        }
                    }
                }
                assert(!s1.widgets.in_subtree(ch as int, x as int));
                assert(s1.widgets.children_of(x as int).len() == 1);
                assert(self.widgets.children@[x as int]@.len() <= 1);
                assert(self.widgets.children_of(x as int).contains(nid));
                let c0 = self.widgets.children_of(x as int)[0];
                assert(self.widgets.children_of(x as int).contains(c0));
                if c0 != nid {
                    assert(s1.widgets.children_of(x as int).contains(c0));
                    assert(s1.widgets.children_of(x as int)[0] == ch);
                }
                assert forall|y: usize| #[trigger] self.wait_rebuilds@.contains(y) implies !s0.widgets.in_subtree(x as int, y as int) by {
                    assert(s1.wait_rebuilds@.contains(y));
                    if s0.widgets.in_subtree(x as int, y as int) {
                        assert(y < s0.widgets.len());
                        assert(ws@.contains(y));
                    }
                }
            }
        } else {
            proof {
                assert(self.widgets.children@[x as int]@.len() <= 1);
            }
            let nid = self.append_fresh(x, built);
            proof {
                assert forall|y: usize| y < s0.widgets.len() implies (#[trigger] self.wait_rebuilds@.contains(y) == (
                    s0.wait_rebuilds@.contains(y) && !s0.widgets.in_subtree(x as int, y as int))) by {
                    assert(s1.wait_rebuilds@.contains(y) == (s0.wait_rebuilds@.contains(y) && !ws@.contains(y)));
                }
                assert(self.widgets.children_of(x as int) == seq![nid]);
                assert forall|y: usize| #[trigger] self.wait_rebuilds@.contains(y) implies !s0.widgets.in_subtree(x as int, y as int) by {
                    if s0.widgets.in_subtree(x as int, y as int) {
                        assert(y < s0.widgets.len());
                        assert(ws@.contains(y));
                    }
                }
            }
        }
    }

    /// An empty reconciler: no widget, no render node.
    pub fn new() -> (r: Reconciler)
        ensures
            r.inv(),
            r.mirror(),
            r.widgets.len() == 0,
            r.renders.len() == 0,
            r.rel@ == Map::<usize, usize>::empty(),
            r.wait_rebuilds@ == Set::<usize>::empty(),
            r.dirty_widgets@ == Set::<usize>::empty(),
            r.root is None,
    {
        Reconciler {
            widgets: Tree::new(),
            renders: Tree::new(),
            rel: Relationship::new(),
            dirty_widgets: IdSet::new(),
            wait_rebuilds: IdSet::new(),
            dirty_layouts: IdSet::new(),
            root: None,
        }
    }

    /// A fresh reconciler whose widget tree is `root`, inflated at index
    /// zero, with its render tree constructed and nothing queued or dirty.
    pub open spec fn mounted_from(&self, root: &Widget) -> bool {
        &&& self.inv()
        &&& self.mirror()
        &&& self.root == Some(0usize)
        &&& self.widgets.len() == root.size()
        &&& self.widgets.data@[0] == root.node()
        &&& shaped(&self.widgets, 0, *root)
        &&& forall|w: usize| #[trigger]
            self.rel@.contains_key(w) ==> self.renders.data@[self.rel@[w] as int].props == self.widgets.data@[w as int].props
        &&& self.widgets.parent@[0] is None
        &&& forall|i: int| 0 <= i < self.widgets.len() ==> #[trigger] self.widgets.is_live(i) && self.widgets.in_subtree(0, i)
        &&& self.wait_rebuilds@ == Set::<usize>::empty()
        &&& self.dirty_widgets@ == Set::<usize>::empty()
    }

    /// Inflates `root` into a widget tree and constructs its render tree.
    /// Refused (`None`) only when the description is too large for the
    /// arenas.
    pub fn mount(root: &Widget) -> (r: Option<Reconciler>)
        ensures
            r is None <==> 3 * root.size() >= usize::MAX,
            r matches Some(rc) ==> rc.mounted_from(root),
    {
        let n = root.count();
        if n >= usize::MAX / 3 {
            return None;
        }
        let mut rc = Reconciler::new();
        let id = rc.inflate(None, root);
        rc.root = Some(id);
        proof {
            assert forall|i: int| 0 <= i < rc.widgets.len() implies #[trigger] rc.widgets.is_live(i)
                && rc.widgets.in_subtree(0, i) && !rc.rel@.contains_key(i as usize) by {
                assert(rc.widgets.is_live(i));
            }
        }
        let ghost s1 = rc;
        proof {
            assert(id == 0);
            assert(rc.fresh_from(id));
        }
        rc.construct_render_tree(id);
        proof {
            assert(rc.widgets == s1.widgets);
            assert(rc.widgets.data@[0] == root.node());
            assert(rc.widgets.parent@[0] is None);
            assert(rc.wait_rebuilds@ == Set::<usize>::empty());
            assert(rc.dirty_widgets@ == Set::<usize>::empty());
            assert(rc.root == Some(0usize));
            assert forall|i: int| 0 <= i < rc.widgets.len() implies #[trigger] rc.widgets.is_live(i)
                && rc.widgets.in_subtree(0, i) by {
                assert(s1.widgets.is_live(i));
            }
            assert(rc.mounted_from(root));
        }
        Some(rc)
    }

    /// Queues the composition `x` for a rebuild. Returns whether `x` is a
    /// live composition; anything else is left off the queue.
    pub fn mark_needs_rebuild(&mut self, x: usize) -> (queued: bool)
        requires
            old(self).inv(),
        ensures
            final(self).inv(),
            old(self).mirror() ==> final(self).mirror(),
            queued == (old(self).widgets.is_live(x as int) && old(self).widgets.data@[x as int].kind
                == Kind::Compose),
            final(self).wait_rebuilds@ == (if queued {
                old(self).wait_rebuilds@.insert(x)
            } else {
                old(self).wait_rebuilds@
            }),
            final(self).widgets == old(self).widgets,
            final(self).renders == old(self).renders,
            final(self).rel == old(self).rel,
            final(self).dirty_widgets == old(self).dirty_widgets,
            final(self).root == old(self).root,
    {
        if self.widgets.is_alive(x) && self.widgets.get(x).kind == Kind::Compose {
            let ghost s0 = *self;
            self.wait_rebuilds.insert(x);
            proof {
                assert forall|w: int| 0 <= w < self.widgets.len() && s0.mirror() implies #[trigger] self.mirror_at(w) by {
                    assert(s0.mirror_at(w));
                }
            }
            true
        } else {
            false
        }
    }

    /// `y` waits below another waiting node.
    pub open spec fn covered(&self, y: usize) -> bool {
        exists|x: usize| #[trigger]
            self.wait_rebuilds@.contains(x) && x != y && self.widgets.in_subtree(x as int, y as int)
    }

    /// Rebuilds every queued composition until the queue is empty, and
    /// returns the compositions it built, in order. Each pass takes some
    /// queued node, climbs to its topmost queued ancestor, asks `composer`
    /// to build that composition's child, and reconciles it. A node queued
    /// below another queued node is never built on its own: its ancestor's
    /// rebuild covers it. Each composition is built at most once. With an
    /// empty queue nothing changes. Stops with `ArenaFull`, before touching
    /// the trees, if a built child does not fit.
    pub fn repair_tree<C: Compose>(&mut self, composer: &mut C) -> (r: Result<Vec<usize>, ArenaFull>)
        requires
            old(self).inv(),
            old(self).mirror(),
        ensures
            final(self).inv(),
            final(self).mirror(),
            r is Ok ==> final(self).wait_rebuilds@ == Set::<usize>::empty(),
            r matches Err(e) ==> final(self).widgets.len() + final(self).renders.len() + 2 * e.size + 1
                >= usize::MAX,
            r matches Ok(b) ==> b@.no_duplicates(),
            r matches Ok(b) ==> forall|y: usize| #[trigger] b@.contains(y) ==> old(self).wait_rebuilds@.contains(y),
            r matches Ok(b) ==> forall|y: usize|
                #![trigger b@.contains(y)]
                old(self).wait_rebuilds@.contains(y) && old(self).covered(y) ==> !b@.contains(y),
            r matches Ok(b) ==> forall|y: usize|
                #![trigger b@.contains(y)]
                old(self).wait_rebuilds@.contains(y) && !old(self).covered(y) ==> b@.contains(y),
            final(self).wait_rebuilds@.subset_of(old(self).wait_rebuilds@),
            old(self).wait_rebuilds@ == Set::<usize>::empty() ==> *final(self) == *old(self) && (
            r matches Ok(b) && b@.len() == 0),
            final(self).root == old(self).root,
    {
        let mut built: Vec<usize> = Vec::new();
        if self.wait_rebuilds.is_empty() {
            return Ok(built);
        }
        let ghost s_init = *self;
        proof {
            assert forall|y: usize| #[trigger] self.wait_rebuilds@.contains(y) && s_init.covered(y) implies self.covered(y) by {}
        }
        loop
            invariant
                self.inv(),
                self.mirror(),
                s_init == *old(self),
                s_init.inv(),
                self.wait_rebuilds@.subset_of(old(self).wait_rebuilds@),
                old(self).wait_rebuilds@ != Set::<usize>::empty(),
                self.root == old(self).root,
                s_init.widgets.len() <= self.widgets.len(),
                built@.no_duplicates(),
                forall|b: usize| #[trigger] built@.contains(b) ==> s_init.wait_rebuilds@.contains(b)
                    && !self.wait_rebuilds@.contains(b),
                forall|y: usize, z: int|
                    #![trigger self.wait_rebuilds@.contains(y), self.widgets.parent@[z]]
                    self.wait_rebuilds@.contains(y) && 0 <= z < s_init.widgets.len() && s_init.widgets.in_subtree(z, y as int)
                        ==> self.widgets.parent@[z] == s_init.widgets.parent@[z],
                forall|y: usize| #[trigger]
                    s_init.wait_rebuilds@.contains(y) && s_init.covered(y) ==> !built@.contains(y)
                        && (self.wait_rebuilds@.contains(y) ==> self.covered(y)),
                forall|y: usize|
                    #![trigger built@.contains(y)]
                    s_init.wait_rebuilds@.contains(y) && !s_init.covered(y) ==> built@.contains(y)
                        || self.wait_rebuilds@.contains(y),
            decreases self.wait_rebuilds@.len(),
        {
            match self.wait_rebuilds.pick() {
                None => {
                    return Ok(built);
                },
                Some(x) => {
                    let t = self.topmost_pending(x);
                    let node = *self.widgets.get(t);
                    let c = composer.build(t, &node);
                    let ghost s0 = *self;
                    let ghost b0 = built@;
                    match self.try_rebuild(t, &c) {
                        Err(e) => {
                            return Err(e);
                        },
                        Ok(()) => {},
                    }
                    proof {
                        assert(s0.widgets.in_subtree(t as int, t as int));
                        assert(!self.wait_rebuilds@.contains(t));
                        assert(self.wait_rebuilds@.subset_of(s0.wait_rebuilds@.remove(t)));
                        s0.wait_rebuilds.lemma_finite();
                        vstd::set_lib::lemma_len_subset(self.wait_rebuilds@, s0.wait_rebuilds@.remove(t));
                        self.lemma_pass_step(&s0, &s_init, t);
                        assert forall|y: usize|
                            s_init.wait_rebuilds@.contains(y) && !s_init.covered(y) && !b0.contains(y) && y != t
                                implies #[trigger] self.wait_rebuilds@.contains(y) by {
                            assert(s0.wait_rebuilds@.contains(y));
                            assert(y < s0.widgets.len());
                            if s0.widgets.in_subtree(t as int, y as int) {
                                assert(s_init.widgets.is_live(y as int));
                                assert(y < s_init.widgets.len());
                                assert forall|z: int| 0 <= z < s_init.widgets.len() && s_init.widgets.in_subtree(z, y as int)
                                    implies #[trigger] s0.widgets.parent@[z] == s_init.widgets.parent@[z] by {}
                                lemma_chain_frame_back(&s_init.widgets, &s0.widgets, t as int, y as int);
                                assert(s_init.wait_rebuilds@.contains(t));
                                assert(s_init.covered(y));
                            }
                        }
                        assert(!b0.contains(t));
                        crate::arena::lemma_push_contains(b0, t);
                        crate::arena::lemma_push_parts(b0, t);
                    }
                    built.push(t);
                    proof {
                        assert forall|y: usize|
                            s_init.wait_rebuilds@.contains(y) && !s_init.covered(y) implies #[trigger] built@.contains(y)
                                || self.wait_rebuilds@.contains(y) by {
                            if b0.contains(y) {
                            }
                        }
                        assert forall|y: usize| #[trigger]
                            s_init.wait_rebuilds@.contains(y) && s_init.covered(y) implies !built@.contains(y)
                                && (self.wait_rebuilds@.contains(y) ==> self.covered(y)) by {
                            assert(!b0.contains(y));
                            if y == t {
                                if s0.wait_rebuilds@.contains(y) {
                                    assert(s0.covered(y));
                                    let a = choose|a: usize| #[trigger]
                                        s0.wait_rebuilds@.contains(a) && a != y && s0.widgets.in_subtree(a as int, y as int);
                                }
                            }
                        }
                    }
                },
            }
        }
    }

    /// One rebuild of the topmost waiting node `t` keeps, for each node
    /// still waiting, the links above it, and a waiting node that was
    /// covered by a waiting ancestor still is.
    proof fn lemma_pass_step(&self, s0: &Reconciler, s_init: &Reconciler, t: usize)
        requires
            s0.inv(),
            s0.wait_rebuilds@.contains(t),
            s_init.widgets.len() <= s0.widgets.len(),
            s0.widgets.len() <= self.widgets.len(),
            forall|y: usize, z: int|
                #![trigger s0.wait_rebuilds@.contains(y), s0.widgets.parent@[z]]
                s0.wait_rebuilds@.contains(y) && 0 <= z < s_init.widgets.len() && s_init.widgets.in_subtree(z, y as int)
                    ==> s0.widgets.parent@[z] == s_init.widgets.parent@[z],
            forall|y: usize|
                y < s0.widgets.len() ==> (#[trigger] self.wait_rebuilds@.contains(y) == (
                s0.wait_rebuilds@.contains(y) && !s0.widgets.in_subtree(t as int, y as int))),
            forall|y: int|
                0 <= y < s0.widgets.len() && (y == t || !s0.widgets.in_subtree(t as int, y))
                    ==> #[trigger] self.widgets.parent@[y] == s0.widgets.parent@[y],
            self.wait_rebuilds@.subset_of(s0.wait_rebuilds@),
        ensures
            forall|y: usize, z: int|
                #![trigger self.wait_rebuilds@.contains(y), self.widgets.parent@[z]]
                self.wait_rebuilds@.contains(y) && 0 <= z < s_init.widgets.len() && s_init.widgets.in_subtree(z, y as int)
                    ==> self.widgets.parent@[z] == s_init.widgets.parent@[z],
            forall|y: usize| #[trigger]
                self.wait_rebuilds@.contains(y) && s0.covered(y) ==> self.covered(y),
    {
        assert forall|y: usize, z: int|
            #![trigger self.wait_rebuilds@.contains(y), self.widgets.parent@[z]]
            self.wait_rebuilds@.contains(y) && 0 <= z < s_init.widgets.len() && s_init.widgets.in_subtree(z, y as int)
                implies self.widgets.parent@[z] == s_init.widgets.parent@[z] by {
            assert(s0.wait_rebuilds@.contains(y));
            assert(y < s0.widgets.len());
            assert(!s0.widgets.in_subtree(t as int, y as int));
            assert(s0.widgets.parent@[z] == s_init.widgets.parent@[z]);
            assert forall|w: int| 0 <= w < s_init.widgets.len() && s_init.widgets.in_subtree(w, y as int)
                implies #[trigger] s0.widgets.parent@[w] == s_init.widgets.parent@[w] by {}
            lemma_chain_frame(&s_init.widgets, &s0.widgets, z, y as int);
            if s0.widgets.in_subtree(t as int, z) {
                s0.widgets.lemma_subtree_trans(t as int, z, y as int);
            }
        }
        assert forall|y: usize| #[trigger]
            self.wait_rebuilds@.contains(y) && s0.covered(y) implies self.covered(y) by {
            let a = choose|a: usize| #[trigger]
                s0.wait_rebuilds@.contains(a) && a != y && s0.widgets.in_subtree(a as int, y as int);
            assert(y < s0.widgets.len());
            assert(!s0.widgets.in_subtree(t as int, y as int));
            assert(a < s0.widgets.len());
            if s0.widgets.in_subtree(t as int, a as int) {
                s0.widgets.lemma_subtree_trans(t as int, a as int, y as int);
            }
            assert(self.wait_rebuilds@.contains(a));
            assert forall|z: int| 0 <= z < s0.widgets.len() && s0.widgets.in_subtree(z, y as int)
                implies #[trigger] self.widgets.parent@[z] == s0.widgets.parent@[z] by {
                if s0.widgets.in_subtree(t as int, z) {
                    s0.widgets.lemma_subtree_trans(t as int, z, y as int);
                }
            }
            lemma_chain_frame(&s0.widgets, &self.widgets, a as int, y as int);
        }
    }

    /// The render node bound to widget `w`, if any.
    pub fn widget_to_render(&self, w: usize) -> (r: Option<usize>)
        ensures
            r == (if self.rel@.contains_key(w) {
                Some(self.rel@[w])
            } else {
                None
            }),
    {
        self.rel.widget_to_render(w)
    }

    /// The widget bound to render node `r`, if any.
    pub fn render_to_widget(&self, r: usize) -> (w: Option<usize>)
        ensures
            w == self.rel.widget_of(r),
    {
        self.rel.render_to_widget(r)
    }

    /// Whether no widget is bound to a render node.
    pub fn relationship_is_empty(&self) -> (b: bool)
        ensures
            b == (self.rel@ == Map::<usize, usize>::empty()),
    {
        self.rel.is_empty()
    }

    pub fn root_widget(&self) -> (r: Option<usize>)
        ensures
            r == self.root,
    {
        self.root
    }

    /// The render node of what the root widget stands for.
    pub fn render_root(&self) -> (r: Option<usize>)
        requires
            self.inv(),
        ensures
            r == (match self.root {
                Some(w) => match self.down(w as int) {
                    Some(d) => if self.rel@.contains_key(d) {
                        Some(self.rel@[d])
                    } else {
                        None
                    },
                    None => None,
                },
                None => None,
            }),
    {
        match self.root {
            Some(w) => match self.down_nearest_render(w) {
                Some(d) => self.rel.widget_to_render(d),
                None => None,
            },
            None => None,
        }
    }

    pub fn is_widget_live(&self, w: usize) -> (b: bool)
        requires
            self.inv(),
        ensures
            b == self.widgets.is_live(w as int),
    {
        self.widgets.is_alive(w)
    }

    pub fn is_render_live(&self, r: usize) -> (b: bool)
        requires
            self.inv(),
        ensures
            b == self.renders.is_live(r as int),
    {
        self.renders.is_alive(r)
    }

    /// The stored value of a live widget node.
    pub fn widget(&self, w: usize) -> (n: Option<WidgetNode>)
        requires
            self.inv(),
        ensures
            n == (if self.widgets.is_live(w as int) {
                Some(self.widgets.data@[w as int])
            } else {
                None
            }),
    {
        if self.widgets.is_alive(w) {
            Some(*self.widgets.get(w))
        } else {
            None
        }
    }

    /// The render object of a live render node.
    pub fn render_object(&self, r: usize) -> (o: Option<RenderObject>)
        requires
            self.inv(),
        ensures
            o == (if self.renders.is_live(r as int) {
                Some(self.renders.data@[r as int])
            } else {
                None
            }),
    {
        if self.renders.is_alive(r) {
            Some(*self.renders.get(r))
        } else {
            None
        }
    }

    pub fn widget_parent(&self, w: usize) -> (p: Option<usize>)
        requires
            self.inv(),
        ensures
            p == (if w < self.widgets.len() {
                self.widgets.parent@[w as int]
            } else {
                None
            }),
    {
        if w < self.widgets.len_exec() {
            self.widgets.parent(w)
        } else {
            None
        }
    }

    pub fn render_parent(&self, r: usize) -> (p: Option<usize>)
        requires
            self.inv(),
        ensures
            p == (if r < self.renders.len() {
                self.renders.parent@[r as int]
            } else {
                None
            }),
    {
        if r < self.renders.len_exec() {
            self.renders.parent(r)
        } else {
            None
        }
    }

    pub fn widget_children(&self, w: usize) -> (c: Vec<usize>)
        requires
            self.inv(),
        ensures
            c@ == (if w < self.widgets.len() {
                self.widgets.children_of(w as int)
            } else {
                Seq::<usize>::empty()
            }),
    {
        if w < self.widgets.len_exec() {
            copy_ids(self.widgets.children_ref(w))
        } else {
            Vec::new()
        }
    }

    pub fn render_children(&self, r: usize) -> (c: Vec<usize>)
        requires
            self.inv(),
        ensures
            c@ == (if r < self.renders.len() {
                self.renders.children_of(r as int)
            } else {
                Seq::<usize>::empty()
            }),
    {
        if r < self.renders.len_exec() {
            copy_ids(self.renders.children_ref(r))
        } else {
            Vec::new()
        }
    }

    pub fn widget_first_child(&self, w: usize) -> (c: Option<usize>)
        requires
            self.inv(),
            w < self.widgets.len(),
        ensures
            c == (if self.widgets.children_of(w as int).len() == 0 {
                None
            } else {
                Some(self.widgets.children_of(w as int)[0])
            }),
    {
        self.widgets.first_child(w)
    }

    /// The sibling that follows `w` under its parent, if any.
    pub fn widget_next_sibling(&self, w: usize) -> (s: Option<usize>)
        requires
            self.inv(),
            w < self.widgets.len(),
        ensures
            self.widgets.parent_of(w as int) is None ==> s is None,
            self.widgets.parent_of(w as int) matches Some(p) ==> {
                let sib = self.widgets.children_of(p as int);
                exists|k: int|
                    0 <= k < sib.len() && #[trigger] sib[k] == w && s == (if k + 1 < sib.len() {
                        Some(sib[k + 1])
                    } else {
                        None
                    })
            },
    {
        self.widgets.next_sibling(w)
    }

    /// The widget nodes of the subtree under `w`, `w` first, each once.
    pub fn widget_descendants(&self, w: usize) -> (d: Vec<usize>)
        requires
            self.inv(),
            w < self.widgets.len(),
        ensures
            d@.no_duplicates(),
            forall|x: usize| #[trigger]
                d@.contains(x) <==> (x < self.widgets.len() && self.widgets.in_subtree(w as int, x as int)),
    {
        self.widgets.subtree(w)
    }

    /// `w`, its parent, and so on up to the root.
    pub fn widget_ancestors(&self, w: usize) -> (a: Vec<usize>)
        requires
            self.inv(),
            w < self.widgets.len(),
        ensures
            a@.len() > 0,
            a@[0] == w,
            forall|k: int|
                0 <= k < a@.len() - 1 ==> self.widgets.parent_of(#[trigger] a@[k] as int) == Some(
                    a@[k + 1],
                ),
            self.widgets.parent_of(a@[a@.len() - 1] as int) is None,
    {
        self.widgets.ancestors(w)
    }

    /// The render nodes of the subtree under `r`, `r` first, each once.
    pub fn render_descendants(&self, r: usize) -> (d: Vec<usize>)
        requires
            self.inv(),
            r < self.renders.len(),
        ensures
            d@.no_duplicates(),
            forall|x: usize| #[trigger]
                d@.contains(x) <==> (x < self.renders.len() && self.renders.in_subtree(r as int, x as int)),
    {
        self.renders.subtree(r)
    }

    /// `r`, its render parent, and so on up to the render root.
    pub fn render_ancestors(&self, r: usize) -> (a: Vec<usize>)
        requires
            self.inv(),
            r < self.renders.len(),
        ensures
            a@.len() > 0,
            a@[0] == r,
            forall|k: int|
                0 <= k < a@.len() - 1 ==> self.renders.parent_of(#[trigger] a@[k] as int) == Some(
                    a@[k + 1],
                ),
            self.renders.parent_of(a@[a@.len() - 1] as int) is None,
    {
        self.renders.ancestors(r)
    }

    pub fn is_dirty(&self, w: usize) -> (b: bool)
        ensures
            b == self.dirty_widgets@.contains(w),
    {
        self.dirty_widgets.contains(w)
    }

    pub fn is_waiting(&self, w: usize) -> (b: bool)
        ensures
            b == self.wait_rebuilds@.contains(w),
    {
        self.wait_rebuilds.contains(w)
    }

    pub fn needs_layout(&self, r: usize) -> (b: bool)
        ensures
            b == self.dirty_layouts@.contains(r),
    {
        self.dirty_layouts.contains(r)
    }

    pub fn down_nearest_render(&self, w: usize) -> (d: Option<usize>)
        requires
            self.widgets.wf(),
        ensures
            d == self.down(w as int),
    {
        if w >= self.widgets.len_exec() {
            return None;
        }
        let mut cur = w;
        while !self.widgets.get(cur).is_render()
            invariant
                self.widgets.wf(),
                cur < self.widgets.len(),
                self.down(cur as int) == self.down(w as int),
            decreases self.widgets.len() - cur,
        {
            let ch = self.widgets.children_ref(cur);
            if ch.len() == 1 && ch[0] > cur && ch[0] < self.widgets.len_exec() {
                cur = ch[0];
            } else {
                return None;
            }
        }
        Some(cur)
    }

    pub fn up_nearest_render(&self, w: usize) -> (u: Option<usize>)
        requires
            self.widgets.wf(),
            w < self.widgets.len(),
        ensures
            u == self.up(w as int),
    {
        let mut cur = w;
        loop
            invariant
                self.widgets.wf(),
                cur < self.widgets.len(),
                self.up(cur as int) == self.up(w as int),
            decreases cur,
        {
            match self.widgets.parent(cur) {
                None => {
                    return None;
                },
                Some(p) => {
                    if self.widgets.get(p).is_render() {
                        return Some(p);
                    }
                    cur = p;
                },
            }
        }
    }
}

} // verus!
