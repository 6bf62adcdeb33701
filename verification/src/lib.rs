use vstd::prelude::*;

pub mod backend;
pub mod cell;
pub mod comparison;
pub mod geometry;
pub mod harness;
pub mod layout;
pub mod platform;
pub mod probe;
pub mod proxy;
pub mod retained;
pub mod runtime;
pub mod frame;
pub mod style;
pub mod surface;
pub mod terminal;
pub mod wake;

verus! {

} // verus!
