//! Arguments and frame sizes of the memory probe of the matched workloads.
use vstd::prelude::*;

use crate::geometry::Size;

verus! {

/// Width of the base workload frame.
pub const WIDTH: u16 = 48;

/// Height of the base workload frame.
pub const HEIGHT: u16 = 12;

/// Height of the frame after the resize scenario.
pub const RESIZED_HEIGHT: u16 = 16;

/// Width of the overlay workload frame.
pub const OVERLAY_WIDTH: u16 = 40;

/// Height of the overlay workload frame.
pub const OVERLAY_HEIGHT: u16 = 12;

/// Framework whose memory is measured.
#[derive(Clone, Copy, Debug, Eq, PartialEq, Structural)]
pub enum Framework {
    /// This library.
    Arborui,
    /// The ratatui implementation of the same workloads.
    Ratatui,
}

/// Row heights of the collection workload.
#[derive(Clone, Copy, Debug, Eq, PartialEq, Structural)]
pub enum CollectionMode {
    /// Every row has the same height.
    Fixed,
    /// Rows have varying heights.
    Variable,
}

/// Measured workload.
#[derive(Clone, Copy, Debug, Eq, PartialEq, Structural)]
pub enum Workload {
    /// A scrolling collection.
    Collection(CollectionMode),
    /// A table.
    Table,
    /// A scrolling log.
    Log,
    /// A modal overlay.
    Overlay,
}

/// Measured scenario within a workload.
#[derive(Clone, Copy, Debug, Eq, PartialEq, Structural)]
pub enum Scenario {
    /// Model construction only.
    Model,
    /// Construction and first frame.
    Cold,
    /// First render.
    InitialRender,
    /// One page down.
    PageDown,
    /// Viewport resize.
    Resize,
    /// Selection change.
    Selection,
    /// Reversed order.
    Reverse,
    /// Redraw without changes.
    UnchangedRedraw,
    /// Update of a visible row.
    VisibleUpdate,
    /// Update of a row outside the viewport.
    OffscreenUpdate,
    /// One page up.
    PageUp,
    /// Appending while following the tail.
    AppendFollowing,
    /// Appending while paused.
    AppendPaused,
    /// Opening the overlay.
    Open,
    /// Moving focus forward.
    FocusNext,
    /// Cancelling the overlay.
    Cancel,
    /// Confirming the overlay.
    Confirm,
    /// Activating the covered background.
    BackgroundActivation,
    /// Resizing while the overlay is open.
    ResizeOpen,
}

/// An argument that names no known framework, workload or scenario.
#[derive(Clone, Debug, Eq, PartialEq)]
pub enum ProbeArgumentError {
    /// The framework argument, unrecognized.
    UnknownFramework(String),
    /// The workload argument, unrecognized.
    UnknownWorkload(String),
    /// The scenario argument, unrecognized.
    UnknownScenario(String),
}

/// The framework a probe argument names.
pub open spec fn framework_named(name: Seq<char>) -> Option<Framework> {
    if name == "arborui"@ {
        Some(Framework::Arborui)
    } else if name == "ratatui"@ {
        Some(Framework::Ratatui)
    } else {
        None
    }
}

/// The workload a probe argument names.
pub open spec fn workload_named(name: Seq<char>) -> Option<Workload> {
    if name == "fixed"@ {
        Some(Workload::Collection(CollectionMode::Fixed))
    } else if name == "variable"@ {
        Some(Workload::Collection(CollectionMode::Variable))
    } else if name == "table"@ {
        Some(Workload::Table)
    } else if name == "log"@ {
        Some(Workload::Log)
    } else if name == "overlay"@ {
        Some(Workload::Overlay)
    } else {
        None
    }
}

/// The scenario a probe argument names.
pub open spec fn scenario_named(name: Seq<char>) -> Option<Scenario> {
    if name == "model"@ {
        Some(Scenario::Model)
    } else if name == "cold"@ {
        Some(Scenario::Cold)
    } else if name == "initial-render"@ {
        Some(Scenario::InitialRender)
    } else if name == "page-down"@ {
        Some(Scenario::PageDown)
    } else if name == "resize"@ {
        Some(Scenario::Resize)
    } else if name == "selection"@ {
        Some(Scenario::Selection)
    } else if name == "reverse"@ {
        Some(Scenario::Reverse)
    } else if name == "unchanged-redraw"@ {
        Some(Scenario::UnchangedRedraw)
    } else if name == "visible-update"@ {
        Some(Scenario::VisibleUpdate)
    } else if name == "offscreen-update"@ {
        Some(Scenario::OffscreenUpdate)
    } else if name == "page-up"@ {
        Some(Scenario::PageUp)
    } else if name == "append-following"@ {
        Some(Scenario::AppendFollowing)
    } else if name == "append-paused"@ {
        Some(Scenario::AppendPaused)
    } else if name == "open"@ {
        Some(Scenario::Open)
    } else if name == "focus-next"@ {
        Some(Scenario::FocusNext)
    } else if name == "cancel"@ {
        Some(Scenario::Cancel)
    } else if name == "confirm"@ {
        Some(Scenario::Confirm)
    } else if name == "background-activation"@ {
        Some(Scenario::BackgroundActivation)
    } else if name == "resize-open"@ {
        Some(Scenario::ResizeOpen)
    } else {
        None
    }
}

/// Whether `value` spells `name`.
fn spells(value: &str, name: &str) -> (same: bool)
    ensures
        same == (value@ == name@),
{
    value.to_owned() == name.to_owned()
}

/// Parses the framework argument.
pub fn parse_framework(value: &str) -> (framework: Result<Framework, ProbeArgumentError>)
    ensures
        match framework_named(value@) {
            Some(named) => framework == Ok::<Framework, ProbeArgumentError>(named),
            None => framework matches Err(ProbeArgumentError::UnknownFramework(text)) && text@
                == value@,
        },
{
    if spells(value, "arborui") {
        Ok(Framework::Arborui)
    } else if spells(value, "ratatui") {
        Ok(Framework::Ratatui)
    } else {
        Err(ProbeArgumentError::UnknownFramework(value.to_owned()))
    }
}

/// Parses the workload argument.
pub fn parse_workload(value: &str) -> (workload: Result<Workload, ProbeArgumentError>)
    ensures
        match workload_named(value@) {
            Some(named) => workload == Ok::<Workload, ProbeArgumentError>(named),
            None => workload matches Err(ProbeArgumentError::UnknownWorkload(text)) && text@
                == value@,
        },
{
    if spells(value, "fixed") {
        Ok(Workload::Collection(CollectionMode::Fixed))
    } else if spells(value, "variable") {
        Ok(Workload::Collection(CollectionMode::Variable))
    } else if spells(value, "table") {
        Ok(Workload::Table)
    } else if spells(value, "log") {
        Ok(Workload::Log)
    } else if spells(value, "overlay") {
        Ok(Workload::Overlay)
    } else {
        Err(ProbeArgumentError::UnknownWorkload(value.to_owned()))
    }
}

/// Parses the scenario argument.
pub fn parse_scenario(value: &str) -> (scenario: Result<Scenario, ProbeArgumentError>)
    ensures
        match scenario_named(value@) {
            Some(named) => scenario == Ok::<Scenario, ProbeArgumentError>(named),
            None => scenario matches Err(ProbeArgumentError::UnknownScenario(text)) && text@
                == value@,
        },
{
    if spells(value, "model") {
        Ok(Scenario::Model)
    } else if spells(value, "cold") {
        Ok(Scenario::Cold)
    } else if spells(value, "initial-render") {
        Ok(Scenario::InitialRender)
    } else if spells(value, "page-down") {
        Ok(Scenario::PageDown)
    } else if spells(value, "resize") {
        Ok(Scenario::Resize)
    } else if spells(value, "selection") {
        Ok(Scenario::Selection)
    } else if spells(value, "reverse") {
        Ok(Scenario::Reverse)
    } else if spells(value, "unchanged-redraw") {
        Ok(Scenario::UnchangedRedraw)
    } else if spells(value, "visible-update") {
        Ok(Scenario::VisibleUpdate)
    } else if spells(value, "offscreen-update") {
        Ok(Scenario::OffscreenUpdate)
    } else if spells(value, "page-up") {
        Ok(Scenario::PageUp)
    } else if spells(value, "append-following") {
        Ok(Scenario::AppendFollowing)
    } else if spells(value, "append-paused") {
        Ok(Scenario::AppendPaused)
    } else if spells(value, "open") {
        Ok(Scenario::Open)
    } else if spells(value, "focus-next") {
        Ok(Scenario::FocusNext)
    } else if spells(value, "cancel") {
        Ok(Scenario::Cancel)
    } else if spells(value, "confirm") {
        Ok(Scenario::Confirm)
    } else if spells(value, "background-activation") {
        Ok(Scenario::BackgroundActivation)
    } else if spells(value, "resize-open") {
        Ok(Scenario::ResizeOpen)
    } else {
        Err(ProbeArgumentError::UnknownScenario(value.to_owned()))
    }
}

/// Frame size of the collection, table and log workloads.
pub fn base_size() -> (size: Size)
    ensures
        size.width == WIDTH,
        size.height == HEIGHT,
{
    Size::new(WIDTH, HEIGHT)
}

/// Frame size of the overlay workload.
pub fn overlay_size() -> (size: Size)
    ensures
        size.width == OVERLAY_WIDTH,
        size.height == OVERLAY_HEIGHT,
{
    Size::new(OVERLAY_WIDTH, OVERLAY_HEIGHT)
}

/// Whether a workload constructed a bounded number of rows: at least one,
/// and no more than the tallest frame shows.
pub fn construction_bounded(constructed_rows: usize) -> (bounded: bool)
    ensures
        bounded == (0 < constructed_rows && constructed_rows <= RESIZED_HEIGHT),
{
    constructed_rows > 0 && constructed_rows <= RESIZED_HEIGHT as usize
}

} // verus!
