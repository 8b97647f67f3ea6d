use vstd::prelude::*;

verus! {

/// How a widget aligns to its box along one axis.
#[derive(Clone, Copy, PartialEq, Eq, Structural, Hash, Debug)]
pub enum Align {
    /// Aligned to the start edge of the box provided by the parent.
    Start,
    /// Aligned to the center of the box provided by the parent.
    Center,
    /// Aligned to the end edge of the box provided by the parent.
    End,
    /// Fills the whole box along the axis; the constraints become tight.
    Stretch,
}

/// How a widget aligns to its box along the x-axis.
#[derive(Clone, Copy, PartialEq, Eq, Structural, Hash, Debug)]
pub enum HAlign {
    Left,
    Center,
    Right,
    Stretch,
}

/// How a widget aligns to its box along the y-axis.
#[derive(Clone, Copy, PartialEq, Eq, Structural, Hash, Debug)]
pub enum VAlign {
    Top,
    Center,
    Bottom,
    Stretch,
}

impl Default for Align {
    fn default() -> (a: Align)
        ensures
            a == Align::Start,
    {
        Align::Start
    }
}

impl Default for HAlign {
    fn default() -> (a: HAlign)
        ensures
            a == HAlign::Left,
    {
        HAlign::Left
    }
}

impl Default for VAlign {
    fn default() -> (a: VAlign)
        ensures
            a == VAlign::Top,
    {
        VAlign::Top
    }
}

pub open spec fn align_of_h(h: HAlign) -> Align {
    match h {
        HAlign::Left => Align::Start,
        HAlign::Center => Align::Center,
        HAlign::Right => Align::End,
        HAlign::Stretch => Align::Stretch,
    }
}

pub open spec fn align_of_v(v: VAlign) -> Align {
    match v {
        VAlign::Top => Align::Start,
        VAlign::Center => Align::Center,
        VAlign::Bottom => Align::End,
        VAlign::Stretch => Align::Stretch,
    }
}

impl From<HAlign> for Align {
    fn from(h: HAlign) -> (a: Align) {
        match h {
            HAlign::Left => Align::Start,
            HAlign::Center => Align::Center,
            HAlign::Right => Align::End,
            HAlign::Stretch => Align::Stretch,
        }
    }
}

impl vstd::std_specs::convert::FromSpecImpl<HAlign> for Align {
    open spec fn obeys_from_spec() -> bool {
        true
    }

    open spec fn from_spec(h: HAlign) -> Align {
        align_of_h(h)
    }
}

impl From<VAlign> for Align {
    fn from(v: VAlign) -> (a: Align) {
        match v {
            VAlign::Top => Align::Start,
            VAlign::Center => Align::Center,
            VAlign::Bottom => Align::End,
            VAlign::Stretch => Align::Stretch,
        }
    }
}

impl vstd::std_specs::convert::FromSpecImpl<VAlign> for Align {
    open spec fn obeys_from_spec() -> bool {
        true
    }

    open spec fn from_spec(v: VAlign) -> Align {
        align_of_v(v)
    }
}

/// A widget that aligns its child along the x-axis, by the child's width.
#[derive(Clone, Copy, PartialEq, Eq, Structural, Hash, Debug)]
pub struct HAlignWidget {
    pub h_align: HAlign,
}

/// A widget that aligns its child along the y-axis, by the child's height.
#[derive(Clone, Copy, PartialEq, Eq, Structural, Hash, Debug)]
pub struct VAlignWidget {
    pub v_align: VAlign,
}

impl HAlignWidget {
    /// The alignment that the widget applies along its axis.
    pub fn align(&self) -> (a: Align)
        ensures
            a == align_of_h(self.h_align),
    {
        Align::from(self.h_align)
    }
}

impl VAlignWidget {
    /// The alignment that the widget applies along its axis.
    pub fn align(&self) -> (a: Align)
        ensures
            a == align_of_v(self.v_align),
    {
        Align::from(self.v_align)
    }
}

} // verus!
