use vstd::prelude::*;

use crate::style::Style;

verus! {

/// Stable identity for hyperlink metadata.
///
/// The identity does not contain or resolve a link target. A terminal layer
/// that supports hyperlinks must provide that mapping separately.
#[derive(Clone, Copy, Debug, Eq, Hash, PartialEq, Structural)]
pub struct HyperlinkId(u32);

impl HyperlinkId {
    /// The numeric representation of this identity.
    pub closed spec fn value(self) -> u32 {
        self.0
    }

    /// An identity is determined by its numeric representation.
    pub proof fn lemma_value_identifies(self, other: Self)
        ensures
            self.value() == other.value() <==> self == other,
    {
    }

    /// Creates an identity from its numeric representation.
    pub fn new(value: u32) -> (id: Self)
        ensures
            id.value() == value,
    {
        Self(value)
    }

    /// Returns the numeric representation.
    pub fn get(self) -> (value: u32)
        ensures
            value == self.value(),
    {
        self.0
    }
}

/// Interned identity of one grapheme cluster's text.
#[derive(Clone, Copy, Debug, Eq, Hash, PartialEq, Structural)]
pub struct GraphemeId(u32);

impl GraphemeId {
    /// The numeric representation of this identity.
    pub closed spec fn value(self) -> u32 {
        self.0
    }

    /// Creates an identity from its numeric representation.
    pub fn new(value: u32) -> (id: Self)
        ensures
            id.value() == value,
    {
        Self(value)
    }

    /// Returns the numeric representation.
    pub fn get(self) -> (value: u32)
        ensures
            value == self.value(),
    {
        self.0
    }
}

/// Content occupying one terminal cell.
#[derive(Clone, Copy, Debug, Eq, Hash, PartialEq, Structural)]
pub enum CellContent {
    /// A visually empty cell.
    Empty,
    /// The leading cell of a grapheme cluster.
    Grapheme {
        /// Interned grapheme identity.
        id: GraphemeId,
        /// Number of cells occupied by the grapheme.
        width: u16,
    },
    /// A non-leading cell occupied by a wider grapheme.
    Continuation {
        /// Interned grapheme identity.
        id: GraphemeId,
        /// Cell offset from the leading cell.
        offset: u16,
    },
}

/// Visual state for one terminal cell.
#[derive(Clone, Copy, Debug, Eq, Hash, PartialEq, Structural)]
pub struct Cell {
    /// Content occupying the cell.
    pub content: CellContent,
    /// Cell style.
    pub style: Style,
    /// Optional hyperlink identity.
    pub hyperlink: Option<HyperlinkId>,
}

impl Cell {
    /// Creates an empty cell with `style`.
    pub fn empty(style: Style) -> (cell: Self)
        ensures
            cell.content == CellContent::Empty,
            cell.style == style,
            cell.hyperlink is None,
    {
        Cell { content: CellContent::Empty, style, hyperlink: None }
    }
}

} // verus!
