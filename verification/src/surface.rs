//! Composition properties of independently positioned cell surfaces.

use vstd::prelude::*;

verus! {

/// How empty cells on a surface affect lower surfaces.
#[derive(Clone, Copy, Debug, Default, Eq, PartialEq, Structural)]
pub enum Opacity {
    /// Empty cells leave lower surfaces unchanged.
    #[default]
    Transparent,
    /// Empty cells overwrite lower surfaces.
    Opaque,
}

} // verus!
