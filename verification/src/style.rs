use vstd::prelude::*;

verus! {

/// A terminal color.
#[derive(Clone, Copy, Debug, Eq, Hash, PartialEq, Structural)]
pub enum Color {
    /// The terminal's default color.
    Reset,
    /// ANSI black.
    Black,
    /// ANSI red.
    Red,
    /// ANSI green.
    Green,
    /// ANSI yellow.
    Yellow,
    /// ANSI blue.
    Blue,
    /// ANSI magenta.
    Magenta,
    /// ANSI cyan.
    Cyan,
    /// ANSI white.
    White,
    /// Bright ANSI cyan.
    LightCyan,
    /// Bright ANSI yellow.
    LightYellow,
    /// An entry of the 256-color palette.
    Indexed(u8),
    /// A 24-bit color.
    Rgb(u8, u8, u8),
}

/// A set of text attributes, one bit per attribute.
#[derive(Clone, Copy, Debug, Default, Eq, Hash, PartialEq, Structural)]
pub struct Modifier {
    /// Attribute bits.
    pub bits: u16,
}

impl Modifier {
    /// Bold text.
    pub const BOLD_BIT: u16 = 1;
    /// Dim text.
    pub const DIM_BIT: u16 = 2;
    /// Italic text.
    pub const ITALIC_BIT: u16 = 4;
    /// Underlined text.
    pub const UNDERLINED_BIT: u16 = 8;
    /// Swapped foreground and background.
    pub const REVERSED_BIT: u16 = 64;

    /// The empty attribute set.
    pub fn empty() -> (m: Self)
        ensures
            m.bits == 0,
    {
        Modifier { bits: 0 }
    }

    /// An attribute set from raw bits.
    pub fn from_bits(bits: u16) -> (m: Self)
        ensures
            m.bits == bits,
    {
        Modifier { bits }
    }

    /// Every attribute present in either set.
    pub fn union(self, other: Self) -> (m: Self)
        ensures
            m.bits == self.bits | other.bits,
    {
        Modifier { bits: self.bits | other.bits }
    }

    /// Whether every attribute of `other` is present in `self`.
    pub fn contains(self, other: Self) -> (b: bool)
        ensures
            b == (self.bits & other.bits == other.bits),
    {
        self.bits & other.bits == other.bits
    }
}

/// Visual attributes of a cell. `None` colors inherit from the enclosing style.
#[derive(Clone, Copy, Debug, Default, Eq, Hash, PartialEq, Structural)]
pub struct Style {
    /// Foreground color.
    pub foreground: Option<Color>,
    /// Background color.
    pub background: Option<Color>,
    /// Underline color.
    pub underline_color: Option<Color>,
    /// Text attributes.
    pub modifiers: Modifier,
}

/// The value of `local` where it is present, else `inherited`.
pub open spec fn prefer_local(local: Option<Color>, inherited: Option<Color>) -> Option<Color> {
    match local {
        Some(color) => Some(color),
        None => inherited,
    }
}

/// The style a child sees: its own colors where set, the parent's otherwise,
/// and the attributes of both.
pub open spec fn inherited_style(inherited: Style, local: Style) -> Style {
    Style {
        foreground: prefer_local(local.foreground, inherited.foreground),
        background: prefer_local(local.background, inherited.background),
        underline_color: prefer_local(local.underline_color, inherited.underline_color),
        modifiers: Modifier { bits: inherited.modifiers.bits | local.modifiers.bits },
    }
}

impl Style {
    /// A style that sets nothing.
    pub fn new() -> (style: Self)
        ensures
            style.foreground is None,
            style.background is None,
            style.underline_color is None,
            style.modifiers.bits == 0,
    {
        Style {
            foreground: None,
            background: None,
            underline_color: None,
            modifiers: Modifier { bits: 0 },
        }
    }

    /// Sets the foreground color.
    pub fn fg(self, color: Color) -> (style: Self)
        ensures
            style == (Style { foreground: Some(color), ..self }),
    {
        Style { foreground: Some(color), ..self }
    }

    /// Sets the background color.
    pub fn bg(self, color: Color) -> (style: Self)
        ensures
            style == (Style { background: Some(color), ..self }),
    {
        Style { background: Some(color), ..self }
    }

    /// Adds text attributes.
    pub fn add_modifiers(self, modifiers: Modifier) -> (style: Self)
        ensures
            style == (Style {
                modifiers: Modifier { bits: self.modifiers.bits | modifiers.bits },
                ..self
            }),
    {
        Style { modifiers: self.modifiers.union(modifiers), ..self }
    }
}

fn or_color(local: Option<Color>, inherited: Option<Color>) -> (color: Option<Color>)
    ensures
        color == prefer_local(local, inherited),
{
    match local {
        Some(color) => Some(color),
        None => inherited,
    }
}

/// Combines an enclosing style with a node's own style.
pub fn inherit_style(inherited: Style, local: Style) -> (style: Style)
    ensures
        style == inherited_style(inherited, local),
{
    Style {
        foreground: or_color(local.foreground, inherited.foreground),
        background: or_color(local.background, inherited.background),
        underline_color: or_color(local.underline_color, inherited.underline_color),
        modifiers: inherited.modifiers.union(local.modifiers),
    }
}

} // verus!
