use vstd::prelude::*;

verus! {

/// Where content sits horizontally in a window.
#[derive(Debug, Clone, Copy, PartialEq, Eq, Structural)]
pub enum HorizontalJusitfy {
    Left,
    Center,
    Right,
}

impl Default for HorizontalJusitfy {
    fn default() -> (r: Self)
        ensures
            r == HorizontalJusitfy::Center,
    {
        HorizontalJusitfy::Center
    }
}

/// Where content sits vertically in a window.
#[derive(Debug, Clone, Copy, PartialEq, Eq, Structural)]
pub enum VerticalJustify {
    Top,
    Center,
    Bottom,
}

impl Default for VerticalJustify {
    fn default() -> (r: Self)
        ensures
            r == VerticalJustify::Center,
    {
        VerticalJustify::Center
    }
}

/// Where a window sits horizontally on the screen.
#[derive(Debug, Clone, Copy, PartialEq, Eq, Structural)]
pub enum HorizontalAlign {
    Left,
    Center,
    Right,
}

impl Default for HorizontalAlign {
    fn default() -> (r: Self)
        ensures
            r == HorizontalAlign::Center,
    {
        HorizontalAlign::Center
    }
}

/// Where a window sits vertically on the screen.
#[derive(Debug, Clone, Copy, PartialEq, Eq, Structural)]
pub enum VerticalAlign {
    Top,
    Center,
    Bottom,
}

impl Default for VerticalAlign {
    fn default() -> (r: Self)
        ensures
            r == VerticalAlign::Center,
    {
        VerticalAlign::Center
    }
}

/// The placement of a window and of its content.
#[derive(Debug, Clone, Copy, PartialEq, Eq, Structural)]
pub struct Alignment {
    pub hor_justify: HorizontalJusitfy,
    pub hor_align: HorizontalAlign,
    pub vert_justify: VerticalJustify,
    pub vert_align: VerticalAlign,
}

impl Default for Alignment {
    /// Everything centred.
    fn default() -> (r: Self)
        ensures
            r.hor_justify == HorizontalJusitfy::Center,
            r.hor_align == HorizontalAlign::Center,
            r.vert_justify == VerticalJustify::Center,
            r.vert_align == VerticalAlign::Center,
    {
        Self {
            hor_justify: HorizontalJusitfy::Center,
            hor_align: HorizontalAlign::Center,
            vert_justify: VerticalJustify::Center,
            vert_align: VerticalAlign::Center,
        }
    }
}

/// The tools of the pattern editor.
#[derive(Debug, Clone, Copy, PartialEq, Eq, Structural)]
pub enum EditBar {
    Fill,
    Clear,
    Copy,
    Paste,
    Pattern,
}

impl Default for EditBar {
    fn default() -> (r: Self)
        ensures
            r == EditBar::Fill,
    {
        EditBar::Fill
    }
}

} // verus!
