use vstd::prelude::*;

use crate::align::{HAlignWidget, VAlignWidget};

verus! {

/// An identity token that lets a widget keep its nodes across rebuilds.
#[derive(Clone, Copy, PartialEq, Eq, Structural, Hash, Debug)]
pub struct Key(pub u64);

/// Insets on the four sides of a box, in logical pixels.
#[derive(Clone, Copy, PartialEq, Eq, Structural, Hash, Debug)]
pub struct EdgeInsets {
    pub left: u32,
    pub right: u32,
    pub top: u32,
    pub bottom: u32,
}

/// A widget that insets its child by the given padding.
#[derive(Clone, Copy, PartialEq, Eq, Structural, Hash, Debug)]
pub struct Padding {
    pub padding: EdgeInsets,
}

impl Padding {
    pub fn new(padding: EdgeInsets) -> (p: Padding)
        ensures
            p.padding == padding,
    {
        Padding { padding }
    }
}

/// A widget that only holds a place in the tree: it lays out to nothing
/// and paints nothing.
#[derive(Clone, Copy, PartialEq, Eq, Structural, Hash, Debug)]
pub struct Void;

impl Void {
    /// What a `Void` with an optional child composes to: the child itself
    /// when there is one, otherwise a render leaf that holds the place.
    pub fn compose_single_child(child: Option<Widget>) -> (w: Widget)
        ensures
            child is Some ==> w == child.unwrap(),
            child is None ==> w.node() == (WidgetNode {
                kind: Kind::Render,
                key: None,
                props: Props::Void(Void),
            }),
    {
        match child {
            Some(c) => c,
            None => Widget::Render(WidgetHead { key: None, props: Props::Void(Void) }),
        }
    }
}

/// A composition that builds a row of `width` children, `depth` levels
/// deep; the lowest level holds text leaves.
#[derive(Clone, Copy, PartialEq, Eq, Structural, Hash, Debug)]
pub struct RecursiveRow {
    pub width: usize,
    pub depth: usize,
}

/// What a widget carries besides its children: the concrete widget and its
/// settings. Two widgets have the same type when their variants agree (and,
/// for `Custom`, their tags).
#[derive(Clone, Copy, PartialEq, Eq, Structural, Hash, Debug)]
pub enum Props {
    Row,
    Text,
    Void(Void),
    Padding(Padding),
    HAlign(HAlignWidget),
    VAlign(VAlignWidget),
    RecursiveRow(RecursiveRow),
    Custom { tag: u64, value: u64 },
}

pub open spec fn same_type(a: Props, b: Props) -> bool {
    match (a, b) {
        (Props::Row, Props::Row) => true,
        (Props::Text, Props::Text) => true,
        (Props::Void(_), Props::Void(_)) => true,
        (Props::Padding(_), Props::Padding(_)) => true,
        (Props::HAlign(_), Props::HAlign(_)) => true,
        (Props::VAlign(_), Props::VAlign(_)) => true,
        (Props::RecursiveRow(_), Props::RecursiveRow(_)) => true,
        (Props::Custom { tag: t1, .. }, Props::Custom { tag: t2, .. }) => t1 == t2,
        _ => false,
    }
}

impl Props {
    pub fn is_same_type(&self, other: &Props) -> (b: bool)
        ensures
            b == same_type(*self, *other),
    {
        match (self, other) {
            (Props::Row, Props::Row) => true,
            (Props::Text, Props::Text) => true,
            (Props::Void(_), Props::Void(_)) => true,
            (Props::Padding(_), Props::Padding(_)) => true,
            (Props::HAlign(_), Props::HAlign(_)) => true,
            (Props::VAlign(_), Props::VAlign(_)) => true,
            (Props::RecursiveRow(_), Props::RecursiveRow(_)) => true,
            (Props::Custom { tag: t1, .. }, Props::Custom { tag: t2, .. }) => *t1 == *t2,
            _ => false,
        }
    }
}

/// The four kinds of widget.
#[derive(Clone, Copy, PartialEq, Eq, Structural, Hash, Debug)]
pub enum Kind {
    /// Builds exactly one child and has no render node of its own.
    Compose,
    /// A render node without children.
    Render,
    /// A render node with exactly one child.
    SingleChild,
    /// A render node with an ordered list of children.
    MultiChild,
}

/// The part of a widget that a tree node stores: its kind, key and props.
#[derive(Clone, Copy, PartialEq, Eq, Structural, Hash, Debug)]
pub struct WidgetNode {
    pub kind: Kind,
    pub key: Option<Key>,
    pub props: Props,
}

impl WidgetNode {
    pub open spec fn renders(&self) -> bool {
        self.kind != Kind::Compose
    }

    /// The old node may take the new widget in place: both carry the same
    /// key and are of the same kind and type.
    pub open spec fn matches(&self, new: WidgetNode) -> bool {
        &&& self.key is Some
        &&& self.key == new.key
        &&& self.kind == new.kind
        &&& same_type(self.props, new.props)
    }

    pub fn is_render(&self) -> (b: bool)
        ensures
            b == self.renders(),
    {
        match self.kind {
            Kind::Compose => false,
            _ => true,
        }
    }

    pub fn can_update(&self, new: &WidgetNode) -> (b: bool)
        ensures
            b == self.matches(*new),
    {
        match (self.key, new.key) {
            (Some(a), Some(b)) => a.0 == b.0 && self.kind == new.kind
                && self.props.is_same_type(&new.props),
            _ => false,
        }
    }
}

/// A widget description: a finished tree of widgets, with the child that
/// each composition builds already in place.
pub enum Widget {
    Compose(WidgetHead, Box<Widget>),
    Render(WidgetHead),
    SingleChild(WidgetHead, Box<Widget>),
    MultiChild(WidgetHead, Vec<Widget>),
}

/// The key and props of a widget description.
#[derive(Clone, Copy, PartialEq, Eq, Structural, Hash, Debug)]
pub struct WidgetHead {
    pub key: Option<Key>,
    pub props: Props,
}

impl Widget {
    pub open spec fn node_head(&self) -> WidgetHead {
        match self {
            Widget::Compose(h, _) => *h,
            Widget::Render(h) => *h,
            Widget::SingleChild(h, _) => *h,
            Widget::MultiChild(h, _) => *h,
        }
    }

    pub open spec fn node(&self) -> WidgetNode {
        match self {
            Widget::Compose(h, _) => WidgetNode { kind: Kind::Compose, key: h.key, props: h.props },
            Widget::Render(h) => WidgetNode { kind: Kind::Render, key: h.key, props: h.props },
            Widget::SingleChild(h, _) => WidgetNode {
                kind: Kind::SingleChild,
                key: h.key,
                props: h.props,
            },
            Widget::MultiChild(h, _) => WidgetNode {
                kind: Kind::MultiChild,
                key: h.key,
                props: h.props,
            },
        }
    }

    pub fn to_node(&self) -> (n: WidgetNode)
        ensures
            n == self.node(),
    {
        match self {
            Widget::Compose(h, _) => WidgetNode { kind: Kind::Compose, key: h.key, props: h.props },
            Widget::Render(h) => WidgetNode { kind: Kind::Render, key: h.key, props: h.props },
            Widget::SingleChild(h, _) => WidgetNode {
                kind: Kind::SingleChild,
                key: h.key,
                props: h.props,
            },
            Widget::MultiChild(h, _) => WidgetNode {
                kind: Kind::MultiChild,
                key: h.key,
                props: h.props,
            },
        }
    }

    pub fn key(&self) -> (k: Option<Key>)
        ensures
            k == self.node().key,
    {
        match self {
            Widget::Compose(h, _) => h.key,
            Widget::Render(h) => h.key,
            Widget::SingleChild(h, _) => h.key,
            Widget::MultiChild(h, _) => h.key,
        }
    }
}

/// What a render node holds: the props of the widget it was made from.
#[derive(Clone, Copy, PartialEq, Eq, Structural, Hash, Debug)]
pub struct RenderObject {
    pub props: Props,
}

/// Makes the render object of a render-capable widget.
pub fn create_render_object(node: &WidgetNode) -> (r: RenderObject)
    ensures
        r.props == node.props,
{
    RenderObject { props: node.props }
}

/// `w` is the row that a `RecursiveRow` of this width and depth builds:
/// `width` unkeyed children, each a `RecursiveRow` one level less deep with
/// its own row in place while `depth` is above one, text leaves otherwise.
pub open spec fn recursive_row_shape(w: Widget, width: usize, depth: usize) -> bool
    decreases depth,
{
    match w {
        Widget::MultiChild(h, cs) => {
            &&& h.key is None
            &&& h.props == Props::Row
            &&& cs@.len() == width
            &&& forall|i: int|
                0 <= i < cs@.len() ==> if depth > 1 {
                    match #[trigger] cs@[i] {
                        Widget::Compose(ch, c) => ch.key is None && ch.props == Props::RecursiveRow(
                            RecursiveRow { width, depth: (depth - 1) as usize },
                        ) && recursive_row_shape(*c, width, (depth - 1) as usize),
                        _ => false,
                    }
                } else {
                    cs@[i] == Widget::Render(WidgetHead { key: None, props: Props::Text })
                }
        },
        _ => false,
    }
}

impl RecursiveRow {
    /// A row of `width` children: compositions one level less deep while
    /// `depth` is above one, text leaves otherwise.
    pub fn build(&self) -> (w: Widget)
        ensures
            recursive_row_shape(w, self.width, self.depth),
            w matches Widget::MultiChild(h, cs) && h.key is None && h.props == Props::Row
                && cs@.len() == self.width && forall|i: int|
                0 <= i < cs@.len() ==> if self.depth > 1 {
                    (#[trigger] cs@[i]).node() == (WidgetNode {
                        kind: Kind::Compose,
                        key: None,
                        props: Props::RecursiveRow(
                            RecursiveRow { width: self.width, depth: (self.depth - 1) as usize },
                        ),
                    })
                } else {
                    cs@[i].node() == (WidgetNode { kind: Kind::Render, key: None, props: Props::Text })
                },
        decreases self.depth,
    {
        let mut children: Vec<Widget> = Vec::new();
        let mut i: usize = 0;
        while i < self.width
            invariant
                i <= self.width,
                children@.len() == i,
                forall|j: int|
                    0 <= j < i ==> if self.depth > 1 {
                        (#[trigger] children@[j]).node() == (WidgetNode {
                            kind: Kind::Compose,
                            key: None,
                            props: Props::RecursiveRow(
                                RecursiveRow { width: self.width, depth: (self.depth - 1) as usize },
                            ),
                        })
                    } else {
                        children@[j].node() == (WidgetNode {
                            kind: Kind::Render,
                            key: None,
                            props: Props::Text,
                        })
                    },
                forall|j: int|
                    0 <= j < i ==> if self.depth > 1 {
                        match #[trigger] children@[j] {
                            Widget::Compose(ch, c) => ch.key is None && ch.props == Props::RecursiveRow(
                                RecursiveRow { width: self.width, depth: (self.depth - 1) as usize },
                            ) && recursive_row_shape(*c, self.width, (self.depth - 1) as usize),
                            _ => false,
                        }
                    } else {
                        children@[j] == Widget::Render(WidgetHead { key: None, props: Props::Text })
                    },
            decreases self.width - i,
        {
            if self.depth > 1 {
                let sub = RecursiveRow { width: self.width, depth: self.depth - 1 };
                let built = sub.build();
                children.push(
                    Widget::Compose(
                        WidgetHead { key: None, props: Props::RecursiveRow(sub) },
                        Box::new(built),
                    ),
                );
            } else {
                children.push(Widget::Render(WidgetHead { key: None, props: Props::Text }));
            }
            i += 1;
        }
        Widget::MultiChild(WidgetHead { key: None, props: Props::Row }, children)
    }

    /// The composition itself, with the row it builds.
    pub fn into_widget(&self) -> (w: Widget)
        ensures
            w matches Widget::Compose(_, c) && recursive_row_shape(*c, self.width, self.depth),
            w.node() == (WidgetNode {
                kind: Kind::Compose,
                key: None,
                props: Props::RecursiveRow(*self),
            }),
    {
        Widget::Compose(
            WidgetHead { key: None, props: Props::RecursiveRow(*self) },
            Box::new(self.build()),
        )
    }
}


impl Widget {
    /// The number of widgets in the description.
    pub open spec fn size(&self) -> nat
        decreases self, 0nat,
    {
        match self {
            Widget::Compose(_, c) => 1 + c.size(),
            Widget::Render(_) => 1,
            Widget::SingleChild(_, c) => 1 + c.size(),
            Widget::MultiChild(_, cs) => 1 + sizes(cs@, cs@.len() as int),
        }
    }
}

impl Widget {
    /// The number of widgets in the description, or `usize::MAX` if there
    /// are more.
    pub fn count(&self) -> (n: usize)
        ensures
            n == (if self.size() < usize::MAX {
                self.size()
            } else {
                usize::MAX as nat
            }),
        decreases self,
    {
        match self {
            Widget::Compose(_, c) => {
                let k = c.count();
                k.saturating_add(1)
            },
            Widget::Render(_) => 1,
            Widget::SingleChild(_, c) => {
                let k = c.count();
                k.saturating_add(1)
            },
            Widget::MultiChild(_, cs) => {
                proof {
                    assert forall|j: int| 0 <= j < cs@.len() implies #[trigger] decreases_to!(*self => cs@[j]) by {
                        vstd::std_specs::vec::axiom_vec_index_decreases(*cs, j);
                    }
                }
                let mut total: usize = 1;
                let mut i: usize = 0;
                while i < cs.len()
                    invariant
                        forall|j: int| 0 <= j < cs@.len() ==> #[trigger] decreases_to!(*self => cs@[j]),
                        i <= cs@.len(),
                        self.size() == 1 + sizes(cs@, cs@.len() as int),
                        total == (if 1 + sizes(cs@, i as int) < usize::MAX {
                            1 + sizes(cs@, i as int)
                        } else {
                            usize::MAX as nat
                        }),
                    decreases cs@.len() - i,
                {
                    let k = cs[i].count();
                    total = total.saturating_add(k);
                    i += 1;
                }
                total
            },
        }
    }
}

pub proof fn lemma_sizes_mono(s: Seq<Widget>, i: int, j: int)
    requires
        0 <= i <= j <= s.len(),
    ensures
        sizes(s, i) <= sizes(s, j),
    decreases j - i,
{
    if i < j {
        lemma_sizes_mono(s, i, j - 1);
    }
}

/// The total size of the first `n` descriptions of `s`.
pub open spec fn sizes(s: Seq<Widget>, n: int) -> nat
    decreases s, n,
{
    if n <= 0 || n > s.len() {
        0
    } else {
        sizes(s, n - 1) + s[n - 1].size()
    }
}

} // verus!
