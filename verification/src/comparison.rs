//! Framework-neutral actions and observable state of the matched collection workloads.

use vstd::prelude::*;

verus! {

/// Terminal width of the measured overlay workload after its resize.
pub const OVERLAY_RESIZED_WIDTH: u16 = 44;
/// Terminal height of the measured overlay workload after its resize.
pub const OVERLAY_RESIZED_HEIGHT: u16 = 14;

/// One framework-neutral action in the matched scenario.
#[derive(Clone, Copy, Debug, Eq, PartialEq, Structural)]
pub enum ComparisonAction {
    /// Move the active item upward.
    Up,
    /// Move the active item downward.
    Down,
    /// Move to the first item.
    Home,
    /// Move to the final item.
    End,
    /// Move upward by one viewport.
    PageUp,
    /// Move downward by one viewport.
    PageDown,
    /// Select the active item.
    SelectActive,
    /// Switch between fixed and variable-height rows.
    ToggleMode,
    /// Reverse item order while retaining stable identity.
    Reverse,
    /// Change the complete terminal dimensions.
    Resize {
        /// Complete terminal width.
        width: u16,
        /// Complete terminal height.
        height: u16,
    },
}

/// Focus target in the matched overlay workload.
#[derive(Clone, Copy, Debug, Eq, PartialEq, Structural)]
pub enum OverlayFocus {
    /// Control that opens the dialog.
    Open,
    /// Covered background action.
    Background,
    /// Dialog confirmation action.
    Confirm,
    /// Dialog cancellation action.
    Cancel,
}

/// Observable state of the matched overlay workload.
#[derive(Clone, Copy, Debug, Eq, PartialEq, Structural)]
pub struct OverlaySemanticState {
    /// Whether the modal dialog is open.
    pub dialog_open: bool,
    /// Number of confirmed actions.
    pub confirmations: u64,
    /// Number of background control activations.
    pub background_activations: u64,
    /// Active focus target.
    pub focus: OverlayFocus,
}

/// Observable state of the matched Unicode clipping workload.
#[derive(Clone, Copy, Debug, Eq, PartialEq)]
pub struct UnicodeSemanticState {
    /// Controlled horizontal cell offset.
    pub offset: usize,
    /// Whether the replacement row contains its width-two glyph.
    pub replacement_is_wide: bool,
    /// Complete terminal dimensions.
    pub terminal_size: (u16, u16),
}

/// Whether `focus` belongs to the scope that is active: the dialog's two
/// actions while it is open, the two underlying controls otherwise.
pub open spec fn in_active_scope(dialog_open: bool, focus: OverlayFocus) -> bool {
    if dialog_open {
        focus == OverlayFocus::Confirm || focus == OverlayFocus::Cancel
    } else {
        focus == OverlayFocus::Open || focus == OverlayFocus::Background
    }
}

/// The focus after one traversal step, wrapping within the active scope.
pub open spec fn traversed_focus(dialog_open: bool, focus: OverlayFocus) -> OverlayFocus {
    if dialog_open {
        if focus == OverlayFocus::Confirm {
            OverlayFocus::Cancel
        } else {
            OverlayFocus::Confirm
        }
    } else {
        if focus == OverlayFocus::Open {
            OverlayFocus::Background
        } else {
            OverlayFocus::Open
        }
    }
}

/// Moves overlay focus forward, wrapping within the active focus scope.
pub fn focus_next(dialog_open: bool, focus: OverlayFocus) -> (next: OverlayFocus)
    ensures
        next == traversed_focus(dialog_open, focus),
        in_active_scope(dialog_open, next),
{
    if dialog_open {
        match focus {
            OverlayFocus::Confirm => OverlayFocus::Cancel,
            _ => OverlayFocus::Confirm,
        }
    } else {
        match focus {
            OverlayFocus::Open => OverlayFocus::Background,
            _ => OverlayFocus::Open,
        }
    }
}

/// Moves overlay focus backward, wrapping within the active focus scope.
///
/// Each scope holds two targets, so one step backward lands where one step
/// forward does.
pub fn focus_previous(dialog_open: bool, focus: OverlayFocus) -> (previous: OverlayFocus)
    ensures
        previous == traversed_focus(dialog_open, focus),
        in_active_scope(dialog_open, previous),
{
    focus_next(dialog_open, focus)
}

/// Traversal never leaves the active scope, and a step back undoes a step
/// forward for every target of that scope.
pub proof fn lemma_focus_traversal_round_trips(dialog_open: bool, focus: OverlayFocus)
    ensures
        in_active_scope(dialog_open, traversed_focus(dialog_open, focus)),
        in_active_scope(dialog_open, focus) ==> traversed_focus(
            dialog_open,
            traversed_focus(dialog_open, focus),
        ) == focus,
{
}

/// Number of data rows visible below the header and panel border.
pub open spec fn data_viewport_height(terminal_height: u16) -> usize {
    if terminal_height <= 5 {
        1
    } else {
        (terminal_height - 4) as usize
    }
}

/// Returns the number of data rows visible below the header and panel border.
pub fn viewport_height(terminal_height: u16) -> (height: usize)
    ensures
        height == data_viewport_height(terminal_height),
        height >= 1,
{
    let rows = terminal_height.saturating_sub(4);
    if rows < 1 {
        1
    } else {
        rows as usize
    }
}

/// Largest frame, in cells, of the measured overlay workload.
pub fn overlay_max_cells() -> (cells: usize)
    ensures
        cells == OVERLAY_RESIZED_WIDTH * OVERLAY_RESIZED_HEIGHT,
{
    OVERLAY_RESIZED_WIDTH as usize * OVERLAY_RESIZED_HEIGHT as usize
}

} // verus!
