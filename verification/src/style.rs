//! Plain style values carried by runs of columns.

use vstd::prelude::*;

verus! {

/// An RGB color.
#[derive(Copy, Clone, Eq, PartialEq, Debug)]
pub struct Color {
    pub r: u8,
    pub g: u8,
    pub b: u8,
}

impl Default for Color {
    fn default() -> (color: Self)
        ensures
            color == (Color { r: 0, g: 0, b: 0 }),
    {
        Color { r: 0, g: 0, b: 0 }
    }
}

/// The shape of an underline.
#[derive(Copy, Clone, Eq, PartialEq, Debug)]
pub enum UnderlineStyle {
    Single,
    Double,
    Curl,
    Dot,
    Dash,
}

impl Default for UnderlineStyle {
    fn default() -> (style: Self)
        ensures
            style == UnderlineStyle::Single,
    {
        UnderlineStyle::Single
    }
}

/// An underline: its shape and its color.
#[derive(Copy, Clone, Eq, PartialEq, Debug)]
pub struct Underline {
    pub style: UnderlineStyle,
    pub color: Color,
}

impl Default for Underline {
    fn default() -> (underline: Self)
        ensures
            underline == (Underline {
                style: UnderlineStyle::Single,
                color: Color { r: 0, g: 0, b: 0 },
            }),
    {
        Underline { style: UnderlineStyle::Single, color: Color { r: 0, g: 0, b: 0 } }
    }
}

/// The visual attributes of a run of columns. Styles have no identity and
/// are compared by value.
#[derive(Copy, Clone, Eq, PartialEq, Debug)]
pub struct Style {
    pub foreground: Color,
    pub background: Color,
    pub bold: bool,
    pub italic: bool,
    pub strike: bool,
    pub underline: Option<Underline>,
}

impl Style {
    /// The style with black colors and no attribute set.
    pub open spec fn plain() -> Style {
        Style {
            foreground: Color { r: 0, g: 0, b: 0 },
            background: Color { r: 0, g: 0, b: 0 },
            bold: false,
            italic: false,
            strike: false,
            underline: None,
        }
    }
}

impl Default for Style {
    fn default() -> (style: Self)
        ensures
            style == Style::plain(),
    {
        Style {
            foreground: Color { r: 0, g: 0, b: 0 },
            background: Color { r: 0, g: 0, b: 0 },
            bold: false,
            italic: false,
            strike: false,
            underline: None,
        }
    }
}

} // verus!
