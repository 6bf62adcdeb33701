use vstd::prelude::*;

verus! {

/// A signed cell position.
#[derive(Clone, Copy, Debug, Default, Eq, Hash, PartialEq, Structural)]
pub struct Point {
    /// Column.
    pub x: i32,
    /// Row.
    pub y: i32,
}

impl Point {
    /// Creates a point.
    pub fn new(x: i32, y: i32) -> (point: Self)
        ensures
            point.x == x,
            point.y == y,
    {
        Point { x, y }
    }

    /// The origin of a coordinate space.
    pub open spec fn spec_origin() -> Self {
        Point { x: 0, y: 0 }
    }

    /// The origin of a coordinate space.
    pub fn origin() -> (point: Self)
        ensures
            point == Self::spec_origin(),
    {
        Point { x: 0, y: 0 }
    }
}

/// Unsigned cell dimensions.
#[derive(Clone, Copy, Debug, Default, Eq, Hash, PartialEq, Structural)]
pub struct Size {
    /// Number of columns.
    pub width: u16,
    /// Number of rows.
    pub height: u16,
}

impl Size {
    /// Creates a size.
    pub fn new(width: u16, height: u16) -> (size: Self)
        ensures
            size.width == width,
            size.height == height,
    {
        Size { width, height }
    }

    /// The empty size.
    pub fn zero() -> (size: Self)
        ensures
            size.width == 0,
            size.height == 0,
    {
        Size { width: 0, height: 0 }
    }

    /// Number of cells covered by this size.
    pub open spec fn area(self) -> nat {
        (self.width * self.height) as nat
    }
}

/// An axis-aligned rectangle of cells.
#[derive(Clone, Copy, Debug, Default, Eq, Hash, PartialEq, Structural)]
pub struct Rect {
    /// Left column.
    pub x: i32,
    /// Top row.
    pub y: i32,
    /// Number of columns.
    pub width: u16,
    /// Number of rows.
    pub height: u16,
}

impl Rect {
    /// Creates a rectangle.
    pub fn new(x: i32, y: i32, width: u16, height: u16) -> (rect: Self)
        ensures
            rect.x == x,
            rect.y == y,
            rect.width == width,
            rect.height == height,
    {
        Rect { x, y, width, height }
    }
}

/// Thickness on each edge of a box.
#[derive(Clone, Copy, Debug, Default, Eq, Hash, PartialEq, Structural)]
pub struct Insets {
    /// Top edge.
    pub top: u16,
    /// Right edge.
    pub right: u16,
    /// Bottom edge.
    pub bottom: u16,
    /// Left edge.
    pub left: u16,
}

impl Insets {
    /// Creates insets from explicit edges.
    pub fn new(top: u16, right: u16, bottom: u16, left: u16) -> (insets: Self)
        ensures
            insets.top == top,
            insets.right == right,
            insets.bottom == bottom,
            insets.left == left,
    {
        Insets { top, right, bottom, left }
    }

    /// Creates equal insets on every edge.
    pub fn all(value: u16) -> (insets: Self)
        ensures
            insets.top == value,
            insets.right == value,
            insets.bottom == value,
            insets.left == value,
    {
        Insets { top: value, right: value, bottom: value, left: value }
    }

    /// Creates insets with equal vertical and equal horizontal edges.
    pub fn symmetric(vertical: u16, horizontal: u16) -> (insets: Self)
        ensures
            insets.top == vertical,
            insets.bottom == vertical,
            insets.left == horizontal,
            insets.right == horizontal,
    {
        Insets { top: vertical, right: horizontal, bottom: vertical, left: horizontal }
    }
}

/// Whether the terminal cursor is shown.
#[derive(Clone, Copy, Debug, Default, Eq, Hash, PartialEq, Structural)]
pub enum CursorVisibility {
    /// The cursor is shown.
    Visible,
    /// The cursor is hidden.
    #[default]
    Hidden,
}

/// Desired terminal cursor state.
#[derive(Clone, Copy, Debug, Default, Eq, Hash, PartialEq, Structural)]
pub struct CursorState {
    /// Cursor cell.
    pub position: Point,
    /// Whether the cursor is shown.
    pub visibility: CursorVisibility,
}

impl CursorState {
    /// A hidden cursor at the origin.
    pub open spec fn spec_hidden() -> Self {
        CursorState { position: Point::spec_origin(), visibility: CursorVisibility::Hidden }
    }

    /// A visible cursor at `position`.
    pub open spec fn spec_visible(position: Point) -> Self {
        CursorState { position, visibility: CursorVisibility::Visible }
    }

    /// A hidden cursor at the origin.
    pub fn hidden() -> (cursor: Self)
        ensures
            cursor.position == Point::spec_origin(),
            cursor.visibility == CursorVisibility::Hidden,
    {
        CursorState { position: Point::origin(), visibility: CursorVisibility::Hidden }
    }

    /// A visible cursor at `position`.
    pub fn visible(position: Point) -> (cursor: Self)
        ensures
            cursor.position == position,
            cursor.visibility == CursorVisibility::Visible,
    {
        CursorState { position, visibility: CursorVisibility::Visible }
    }
}

} // verus!
