use vstd::prelude::*;

verus! {

/// Text alignment along the line, whatever the writing direction: in
/// horizontal text the left is the start, in vertical text the top.
#[derive(Clone, Copy, PartialEq, Eq, Structural, Hash, Debug)]
pub enum TextAlign {
    Start,
    Center,
    End,
}

#[derive(Clone, Copy, PartialEq, Eq, Structural, Hash, Debug)]
pub enum TextDirection {
    /// Set horizontally from left to right.
    LeftToRight,
    /// Set horizontally from right to left.
    RightToLeft,
    /// Set vertically from top to bottom.
    TopToBottom,
    /// Set vertically from bottom to top.
    BottomToTop,
}

impl TextDirection {
    pub open spec fn vertical(&self) -> bool {
        *self == TextDirection::TopToBottom || *self == TextDirection::BottomToTop
    }

    pub fn is_vertical(&self) -> (b: bool)
        ensures
            b == self.vertical(),
    {
        match self {
            TextDirection::TopToBottom | TextDirection::BottomToTop => true,
            _ => false,
        }
    }

    pub fn is_horizontal(&self) -> (b: bool)
        ensures
            b == !self.vertical(),
    {
        match self {
            TextDirection::LeftToRight | TextDirection::RightToLeft => true,
            _ => false,
        }
    }
}

/// A font family, by name or by generic family.
#[derive(Clone, Debug, PartialEq, Eq, Hash)]
pub enum FontFamily {
    /// The name of a font family of choice.
    Name(String),
    /// Formal text style for a script.
    Serif,
    /// Low contrast glyphs with plain stroke endings.
    SansSerif,
    /// Informal, handwritten-looking glyphs.
    Cursive,
    /// Decorative or expressive glyphs.
    Fantasy,
    /// Every glyph has the same fixed width.
    Monospace,
}

} // verus!
