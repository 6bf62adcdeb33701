use vstd::prelude::*;

use crate::geometry::Insets;

verus! {

/// A length along one axis.
#[derive(Clone, Copy, Debug, Default, Eq, Hash, PartialEq, Structural)]
pub enum Dimension {
    /// Determined by content and constraints.
    #[default]
    Auto,
    /// A whole number of cells.
    Cells(u16),
    /// A percentage of the parent's content box.
    Percent(u16),
}

impl Dimension {
    /// A whole number of cells.
    pub fn cells(value: u16) -> (dimension: Self)
        ensures
            dimension == Dimension::Cells(value),
    {
        Dimension::Cells(value)
    }

    /// A percentage of the parent's content box.
    pub fn percent(value: u16) -> (dimension: Self)
        ensures
            dimension == Dimension::Percent(value),
    {
        Dimension::Percent(value)
    }
}

/// Main-axis direction of a flex container.
#[derive(Clone, Copy, Debug, Default, Eq, Hash, PartialEq, Structural)]
pub enum FlexDirection {
    /// Left to right.
    #[default]
    Row,
    /// Top to bottom.
    Column,
    /// Right to left.
    RowReverse,
    /// Bottom to top.
    ColumnReverse,
}

/// Cross-axis alignment of children.
#[derive(Clone, Copy, Debug, Default, Eq, Hash, PartialEq, Structural)]
pub enum Align {
    /// Align to the cross-axis start.
    Start,
    /// Center on the cross axis.
    Center,
    /// Align to the cross-axis end.
    End,
    /// Stretch to fill the cross axis.
    #[default]
    Stretch,
}

/// Main-axis distribution of children.
#[derive(Clone, Copy, Debug, Default, Eq, Hash, PartialEq, Structural)]
pub enum Justify {
    /// Pack at the main-axis start.
    #[default]
    Start,
    /// Center on the main axis.
    Center,
    /// Pack at the main-axis end.
    End,
    /// Distribute free space between children.
    SpaceBetween,
    /// Distribute free space around children.
    SpaceAround,
    /// Distribute free space evenly.
    SpaceEvenly,
}

/// Whether a node participates in flow layout.
#[derive(Clone, Copy, Debug, Default, Eq, Hash, PartialEq, Structural)]
pub enum Position {
    /// Placed by its parent's flow.
    #[default]
    Relative,
    /// Placed independently of siblings.
    Absolute,
}

/// Flexbox properties of one layout node.
#[derive(Clone, Copy, Debug, Eq, Hash, PartialEq, Structural)]
pub struct LayoutStyle {
    /// Preferred width.
    pub width: Dimension,
    /// Preferred height.
    pub height: Dimension,
    /// Minimum width.
    pub min_width: Dimension,
    /// Minimum height.
    pub min_height: Dimension,
    /// Maximum width.
    pub max_width: Dimension,
    /// Maximum height.
    pub max_height: Dimension,
    /// Main-axis direction.
    pub direction: FlexDirection,
    /// Cross-axis alignment of children.
    pub align: Align,
    /// Main-axis distribution of children.
    pub justify: Justify,
    /// Share of free space this node grows into.
    pub flex_grow: u16,
    /// Share of overflow this node shrinks by.
    pub flex_shrink: u16,
    /// Space between children in cells.
    pub gap: u16,
    /// Space inside the border.
    pub padding: Insets,
    /// Border thickness.
    pub border: Insets,
    /// Flow participation.
    pub position: Position,
}

/// The style with every property at its default.
pub open spec fn default_layout_style() -> LayoutStyle {
    LayoutStyle {
        width: Dimension::Auto,
        height: Dimension::Auto,
        min_width: Dimension::Auto,
        min_height: Dimension::Auto,
        max_width: Dimension::Auto,
        max_height: Dimension::Auto,
        direction: FlexDirection::Row,
        align: Align::Stretch,
        justify: Justify::Start,
        flex_grow: 0,
        flex_shrink: 1,
        gap: 0,
        padding: Insets { top: 0, right: 0, bottom: 0, left: 0 },
        border: Insets { top: 0, right: 0, bottom: 0, left: 0 },
        position: Position::Relative,
    }
}

impl Default for LayoutStyle {
    fn default() -> (style: Self)
        ensures
            style == default_layout_style(),
    {
        LayoutStyle {
            width: Dimension::Auto,
            height: Dimension::Auto,
            min_width: Dimension::Auto,
            min_height: Dimension::Auto,
            max_width: Dimension::Auto,
            max_height: Dimension::Auto,
            direction: FlexDirection::Row,
            align: Align::Stretch,
            justify: Justify::Start,
            flex_grow: 0,
            flex_shrink: 1,
            gap: 0,
            padding: Insets { top: 0, right: 0, bottom: 0, left: 0 },
            border: Insets { top: 0, right: 0, bottom: 0, left: 0 },
            position: Position::Relative,
        }
    }
}

impl LayoutStyle {
    /// The style with every property at its default.
    pub fn new() -> (style: Self)
        ensures
            style == default_layout_style(),
    {
        Self::default()
    }

    /// Sets the preferred width and height.
    pub fn size(self, width: Dimension, height: Dimension) -> (style: Self)
        ensures
            style == (LayoutStyle { width, height, ..self }),
    {
        LayoutStyle { width, height, ..self }
    }

    /// Sets the flex grow and shrink factors.
    pub fn flex(self, grow: u16, shrink: u16) -> (style: Self)
        ensures
            style == (LayoutStyle { flex_grow: grow, flex_shrink: shrink, ..self }),
    {
        LayoutStyle { flex_grow: grow, flex_shrink: shrink, ..self }
    }

    /// Sets the main-axis direction.
    pub fn direction(self, direction: FlexDirection) -> (style: Self)
        ensures
            style == (LayoutStyle { direction, ..self }),
    {
        LayoutStyle { direction, ..self }
    }
}

} // verus!
