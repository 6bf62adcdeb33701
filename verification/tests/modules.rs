use std::sync::Arc;
use std::time::Duration;

use arborui::cell::{Cell, CellContent, GraphemeId, HyperlinkId};
use arborui::comparison::{
    focus_next, focus_previous, overlay_max_cells, viewport_height, OverlayFocus,
    OVERLAY_RESIZED_HEIGHT, OVERLAY_RESIZED_WIDTH,
};
use arborui::frame::{
    CellRun, CommitError, FramePatch, FramePatchValidationError, PatchCell, PatchCellContent,
    RendererStateId,
};
use arborui::geometry::{CursorState, Insets, Point, Size};
use arborui::harness::{SettleOutcome, SettleReport};
use arborui::probe::{
    base_size, construction_bounded, overlay_size, parse_framework, parse_scenario,
    parse_workload, CollectionMode, Framework, ProbeArgumentError, Scenario, Workload,
};
use arborui::proxy::{EventIngressMetrics, EventIngressState};
use arborui::runtime::{
    after_failed_commit, is_budget_spent, next_message_source, poll_limit, render_needed,
    render_timings, settle_write, synchronized_invalidation, Invalidation, MessageSource,
    RuntimeOptions, TerminalRenderOutcome, UiPreparationTimings, DEFAULT_EVENT_INGRESS_CAPACITY,
    MAX_MESSAGES_PER_TURN, MAX_WORK_PER_TURN,
};
use arborui::style::{inherit_style, Color, Modifier, Style};
use arborui::terminal::{
    sanitized_title, AutowrapMode, ScreenMode, TerminalState, WriteOutcome,
};

fn text_cell(text: &str) -> PatchCell {
    PatchCell {
        content: PatchCellContent::Grapheme {
            id: GraphemeId::new(1),
            text: Arc::from(text),
            width: 1,
        },
        style: Style::default(),
        hyperlink: None,
    }
}

fn wide_cell(id: u32) -> PatchCell {
    PatchCell {
        content: PatchCellContent::Grapheme {
            id: GraphemeId::new(id),
            text: Arc::from("界"),
            width: 2,
        },
        style: Style::default(),
        hyperlink: None,
    }
}

fn continuation(id: u32, offset: u16) -> PatchCell {
    PatchCell {
        content: PatchCellContent::Continuation {
            id: GraphemeId::new(id),
            offset,
        },
        style: Style::default(),
        hyperlink: None,
    }
}

fn run(x: i32, y: i32, cells: Vec<PatchCell>) -> CellRun {
    CellRun {
        position: Point::new(x, y),
        cells,
    }
}

fn patch(width: u16, height: u16, runs: Vec<CellRun>, full_repaint: bool) -> FramePatch {
    FramePatch {
        size: Size::new(width, height),
        runs,
        cursor: CursorState::hidden(),
        cursor_changed: false,
        full_repaint,
    }
}

#[test]
fn valid_patch_with_a_wide_grapheme_passes() {
    let valid = patch(
        4,
        2,
        vec![
            run(0, 0, vec![wide_cell(7), continuation(7, 1), text_cell("a")]),
            run(1, 1, vec![text_cell("b")]),
        ],
        false,
    );
    assert_eq!(valid.validate(), Ok(()));
    assert!(!valid.is_empty());
}

#[test]
fn each_run_error_is_reported() {
    assert_eq!(
        patch(4, 1, vec![run(0, 0, Vec::new())], false).validate(),
        Err(FramePatchValidationError::EmptyRun { run: 0 })
    );
    assert_eq!(
        patch(4, 1, vec![run(4, 0, vec![text_cell("a")])], false).validate(),
        Err(FramePatchValidationError::RunOutOfBounds {
            run: 0,
            position: Point::new(4, 0)
        })
    );
    assert_eq!(
        patch(2, 1, vec![run(1, 0, vec![text_cell("a"), text_cell("b")])], false).validate(),
        Err(FramePatchValidationError::RunDoesNotFit { run: 0, cells: 2 })
    );
    assert_eq!(
        patch(
            4,
            1,
            vec![
                run(0, 0, vec![text_cell("a"), text_cell("b")]),
                run(1, 0, vec![text_cell("c")])
            ],
            false
        )
        .validate(),
        Err(FramePatchValidationError::OverlappingRuns {
            previous_run: 0,
            run: 1
        })
    );
    assert_eq!(
        patch(
            4,
            2,
            vec![run(0, 1, vec![text_cell("a")]), run(0, 0, vec![text_cell("b")])],
            false
        )
        .validate(),
        Err(FramePatchValidationError::RunsOutOfOrder {
            previous_run: 0,
            run: 1
        })
    );
}

#[test]
fn each_span_error_is_reported() {
    let zero = PatchCell {
        content: PatchCellContent::Grapheme {
            id: GraphemeId::new(1),
            text: Arc::from("a"),
            width: 0,
        },
        style: Style::default(),
        hyperlink: None,
    };
    assert_eq!(
        patch(4, 1, vec![run(0, 0, vec![zero])], false).validate(),
        Err(FramePatchValidationError::ZeroWidthGrapheme { run: 0, cell: 0 })
    );
    assert_eq!(
        patch(4, 1, vec![run(0, 0, vec![wide_cell(3)])], false).validate(),
        Err(FramePatchValidationError::IncompleteGrapheme {
            run: 0,
            cell: 0,
            width: 2
        })
    );
    assert_eq!(
        patch(4, 1, vec![run(0, 0, vec![continuation(3, 1)])], false).validate(),
        Err(FramePatchValidationError::InvalidContinuation { run: 0, cell: 0 })
    );
    assert_eq!(
        patch(4, 1, vec![run(0, 0, vec![wide_cell(3), continuation(4, 1)])], false).validate(),
        Err(FramePatchValidationError::InvalidContinuation { run: 0, cell: 1 })
    );
}

#[test]
fn full_repaint_requires_complete_rows() {
    assert_eq!(
        patch(2, 2, vec![run(0, 0, vec![text_cell("a"), text_cell("b")])], true).validate(),
        Err(FramePatchValidationError::IncompleteFullRepaint)
    );
    let complete = patch(
        2,
        2,
        vec![
            run(0, 0, vec![text_cell("a"), text_cell("b")]),
            run(0, 1, vec![text_cell("c"), text_cell("d")]),
        ],
        true,
    );
    assert_eq!(complete.validate(), Ok(()));
}

fn empty_cell() -> PatchCell {
    PatchCell {
        content: PatchCellContent::Empty,
        style: Style::default(),
        hyperlink: None,
    }
}

fn empty_full_patch(width: u16, height: u16) -> FramePatch {
    let runs = (0..height)
        .map(|y| run(0, i32::from(y), (0..width).map(|_| empty_cell()).collect()))
        .collect();
    patch(width, height, runs, true)
}

#[test]
fn nonempty_full_repaint_without_runs_is_not_empty_and_cannot_mutate_buffer() {
    let mut repaint = empty_full_patch(2, 2);
    repaint.runs.clear();
    assert!(!repaint.is_empty());
    assert_eq!(
        repaint.validate(),
        Err(FramePatchValidationError::IncompleteFullRepaint)
    );
}

#[test]
fn overlapping_and_out_of_order_runs_are_rejected() {
    let full = empty_full_patch(2, 2);
    assert_eq!(full.validate(), Ok(()));

    let mut overlapping = full.clone();
    overlapping.runs.insert(1, overlapping.runs[0].clone());
    assert_eq!(
        overlapping.validate(),
        Err(FramePatchValidationError::OverlappingRuns {
            previous_run: 0,
            run: 1,
        })
    );

    let mut out_of_order = full;
    out_of_order.runs.reverse();
    assert_eq!(
        out_of_order.validate(),
        Err(FramePatchValidationError::RunsOutOfOrder {
            previous_run: 0,
            run: 1,
        })
    );
}

#[test]
fn zero_area_full_repaint_remains_valid_and_empty() {
    let repaint = patch(0, 3, Vec::new(), true);
    assert!(repaint.is_empty());
    assert_eq!(repaint.validate(), Ok(()));
}

#[test]
fn commits_are_accepted_only_for_the_current_state() {
    let current = RendererStateId::new(4, 9);
    assert_eq!(current.check_commit(current), Ok(()));
    assert_eq!(
        current.check_commit(RendererStateId::new(5, 9)),
        Err(CommitError::WrongRenderer)
    );
    assert_eq!(
        current.advanced().check_commit(current),
        Err(CommitError::StaleFrame)
    );
}

#[test]
fn invalidation_requests_keep_the_strongest() {
    let mut pending = Invalidation::Nothing;
    pending.request(Invalidation::Layout);
    pending.request(Invalidation::Paint);
    assert_eq!(pending, Invalidation::Layout);
    pending.request(Invalidation::Recompose);
    assert_eq!(pending, Invalidation::Recompose);
    pending.request(Invalidation::Nothing);
    assert_eq!(pending, Invalidation::Recompose);
}

#[test]
fn runtime_options_default_to_the_documented_capacity() {
    assert_eq!(
        RuntimeOptions::new().event_ingress_capacity(),
        DEFAULT_EVENT_INGRESS_CAPACITY
    );
    assert_eq!(
        RuntimeOptions::default().event_ingress_capacity(),
        DEFAULT_EVENT_INGRESS_CAPACITY
    );
    assert_eq!(
        RuntimeOptions::new()
            .with_event_ingress_capacity(3)
            .event_ingress_capacity(),
        3
    );
}

#[test]
fn ready_sources_alternate_and_empty_sources_are_skipped() {
    assert_eq!(
        next_message_source(false, true, true),
        (Some(MessageSource::Internal), true)
    );
    assert_eq!(
        next_message_source(true, true, true),
        (Some(MessageSource::External), false)
    );
    assert_eq!(
        next_message_source(true, true, false),
        (Some(MessageSource::Internal), true)
    );
    assert_eq!(
        next_message_source(false, false, true),
        (Some(MessageSource::External), false)
    );
    assert_eq!(next_message_source(true, false, false), (None, true));
}

#[test]
fn turn_budgets_bound_work() {
    assert!(!is_budget_spent(0, 0));
    assert!(is_budget_spent(MAX_WORK_PER_TURN, 0));
    assert!(is_budget_spent(0, MAX_MESSAGES_PER_TURN));
    assert_eq!(poll_limit(MAX_WORK_PER_TURN), 0);
    assert_eq!(poll_limit(MAX_WORK_PER_TURN - 10), 10);
    assert_eq!(poll_limit(0), 256);
}

#[test]
fn overlay_focus_traversal_wraps_within_the_active_scope() {
    assert_eq!(focus_next(false, OverlayFocus::Open), OverlayFocus::Background);
    assert_eq!(focus_next(false, OverlayFocus::Background), OverlayFocus::Open);
    assert_eq!(focus_previous(false, OverlayFocus::Background), OverlayFocus::Open);
    assert_eq!(focus_next(true, OverlayFocus::Confirm), OverlayFocus::Cancel);
    assert_eq!(focus_next(true, OverlayFocus::Cancel), OverlayFocus::Confirm);
    assert_eq!(focus_previous(true, OverlayFocus::Cancel), OverlayFocus::Confirm);
    assert_eq!(focus_next(true, OverlayFocus::Open), OverlayFocus::Confirm);
    assert_eq!(focus_next(false, OverlayFocus::Cancel), OverlayFocus::Open);
}

#[test]
fn overlay_viewport_and_cell_bound() {
    assert_eq!(viewport_height(10), 6);
    assert_eq!(viewport_height(3), 1);
    assert_eq!(
        overlay_max_cells(),
        usize::from(OVERLAY_RESIZED_WIDTH) * usize::from(OVERLAY_RESIZED_HEIGHT)
    );
    assert_eq!(overlay_max_cells(), 616);
}

#[test]
fn click_reports_add_counts_and_keep_the_severer_outcome() {
    let down = SettleReport {
        turns: 2,
        updates: 1,
        completed_tasks: 0,
        committed_frames: 1,
        outcome: SettleOutcome::Deferred,
    };
    let up = SettleReport {
        turns: 3,
        updates: 2,
        completed_tasks: 1,
        committed_frames: 0,
        outcome: SettleOutcome::Settled,
    };
    let merged = down.merge_click(up);
    assert_eq!(merged.turns, 5);
    assert_eq!(merged.updates, 3);
    assert_eq!(merged.completed_tasks, 1);
    assert_eq!(merged.committed_frames, 1);
    assert_eq!(merged.outcome, SettleOutcome::Deferred);

    let quitting = SettleReport {
        turns: usize::MAX,
        outcome: SettleOutcome::Quitting,
        ..up
    };
    let merged = quitting.merge_click(down);
    assert_eq!(merged.turns, usize::MAX);
    assert_eq!(merged.outcome, SettleOutcome::Quitting);
}

#[test]
fn child_styles_inherit_unset_colors_and_add_modifiers() {
    let parent = Style::new()
        .fg(Color::Red)
        .bg(Color::Blue)
        .add_modifiers(Modifier::from_bits(Modifier::BOLD_BIT));
    let child = Style::new()
        .fg(Color::Green)
        .add_modifiers(Modifier::from_bits(Modifier::ITALIC_BIT));
    let seen = inherit_style(parent, child);
    assert_eq!(seen.foreground, Some(Color::Green));
    assert_eq!(seen.background, Some(Color::Blue));
    assert_eq!(seen.underline_color, None);
    assert!(seen
        .modifiers
        .contains(Modifier::from_bits(Modifier::BOLD_BIT | Modifier::ITALIC_BIT)));
}

#[test]
fn cells_and_ids_keep_their_values() {
    assert_eq!(HyperlinkId::new(42).get(), 42);
    assert_eq!(GraphemeId::new(7).get(), 7);
    let cell = Cell::empty(Style::new().fg(Color::Red));
    assert_eq!(cell.content, CellContent::Empty);
    assert_eq!(cell.style.foreground, Some(Color::Red));
}

#[test]
fn insets_constructors_fill_the_expected_sides() {
    assert_eq!(Insets::all(2), Insets::new(2, 2, 2, 2));
    assert_eq!(Insets::symmetric(1, 3), Insets::new(1, 3, 1, 3));
}

#[test]
fn fullscreen_and_default_terminal_states() {
    let fullscreen = TerminalState::fullscreen();
    assert!(fullscreen.raw_mode);
    assert_eq!(fullscreen.screen, ScreenMode::Alternate);
    assert_eq!(fullscreen.autowrap, AutowrapMode::Disabled);
    let default = TerminalState::default();
    assert!(!default.raw_mode);
    assert_eq!(default.autowrap, AutowrapMode::Preserve);
}

#[test]
fn titles_lose_control_characters_only() {
    assert_eq!(sanitized_title("a\u{7}b\u{1b}c\u{9f}d é"), "abcd é");
}

#[test]
fn metrics_record_admission_to_dequeue_latency() {
    let millis = |value: u128| value * 1_000_000;
    let mut state = EventIngressState::new(2);

    assert!(state.accept("first", millis(0)).is_ok());
    assert!(state.accept("second", millis(5)).is_ok());

    assert_eq!(state.take_next(millis(7)), Some("first"));
    assert_eq!(state.take_next(millis(7)), Some("second"));
    assert_eq!(
        state.snapshot(),
        EventIngressMetrics {
            capacity: 2,
            depth: 0,
            high_water_mark: 2,
            rejected: 0,
            accepted: 2,
            dequeued: 2,
            total_queue_latency: Duration::from_millis(9),
            max_queue_latency: Duration::from_millis(7),
            closed: false,
        }
    );
}

#[test]
fn a_full_ingress_refuses_and_counts() {
    let mut state = EventIngressState::new(1);
    assert!(state.accept(1, 0).is_ok());
    let refused = state.accept(2, 0).expect_err("full");
    assert_eq!(refused.into_inner(), 2);
    assert_eq!(state.snapshot().rejected, 1);
    let pending = state.close();
    assert_eq!(pending.len(), 1);
    assert!(state.snapshot().closed);
    assert_eq!(state.depth(), 0);
}

#[test]
fn probe_arguments_parse_their_names() {
    assert_eq!(parse_framework("arborui"), Ok(Framework::Arborui));
    assert_eq!(parse_framework("ratatui"), Ok(Framework::Ratatui));
    assert_eq!(
        parse_framework("tui"),
        Err(ProbeArgumentError::UnknownFramework(String::from("tui")))
    );
    assert_eq!(
        parse_workload("variable"),
        Ok(Workload::Collection(CollectionMode::Variable))
    );
    assert_eq!(parse_workload("overlay"), Ok(Workload::Overlay));
    assert_eq!(
        parse_workload("Fixed"),
        Err(ProbeArgumentError::UnknownWorkload(String::from("Fixed")))
    );
    assert_eq!(parse_scenario("resize-open"), Ok(Scenario::ResizeOpen));
    assert_eq!(parse_scenario("page-down"), Ok(Scenario::PageDown));
    assert_eq!(
        parse_scenario(""),
        Err(ProbeArgumentError::UnknownScenario(String::new()))
    );
}

#[test]
fn probe_frames_and_row_bounds() {
    assert_eq!(base_size(), Size::new(48, 12));
    assert_eq!(overlay_size(), Size::new(40, 12));
    assert!(!construction_bounded(0));
    assert!(construction_bounded(1));
    assert!(construction_bounded(16));
    assert!(!construction_bounded(17));
}

#[test]
fn render_timings_copy_every_phase() {
    let preparation = UiPreparationTimings {
        staging_reconciliation: Duration::from_micros(1),
        layout: Duration::from_micros(2),
        paint: Duration::from_micros(3),
        diff: Duration::from_micros(4),
        repaint_regions: 5,
        repaint_cells: 6,
    };
    let timings = render_timings(
        Duration::from_micros(20),
        Duration::from_micros(7),
        preparation,
        Some(Duration::from_micros(8)),
        None,
        Some(Duration::from_micros(9)),
    );
    assert_eq!(timings.total, Duration::from_micros(20));
    assert_eq!(timings.view_construction, Duration::from_micros(7));
    assert_eq!(timings.layout, Duration::from_micros(2));
    assert_eq!(timings.repaint_cells, 6);
    assert_eq!(timings.terminal_serialization_and_write, Some(Duration::from_micros(8)));
    assert_eq!(timings.commit, None);
    assert_eq!(timings.post_commit, Some(Duration::from_micros(9)));
}

#[test]
fn write_outcomes_control_commit_and_full_repaint() {
    let mut pending = Invalidation::Recompose;
    let mut committed = 0;
    let mut full_repaints = 0;
    let mut outcomes = Vec::new();
    for written in [
        WriteOutcome::Deferred,
        WriteOutcome::StateUnknown,
        WriteOutcome::Applied,
        WriteOutcome::Applied,
    ] {
        if !render_needed(pending) {
            outcomes.push(TerminalRenderOutcome::Idle);
            continue;
        }
        let settled = settle_write(pending, written);
        if settled.commit {
            committed += 1;
        }
        if settled.force_full_repaint {
            full_repaints += 1;
        }
        pending = settled.pending;
        outcomes.push(settled.outcome);
    }
    assert_eq!(
        outcomes,
        vec![
            TerminalRenderOutcome::Deferred,
            TerminalRenderOutcome::StateUnknown,
            TerminalRenderOutcome::Applied,
            TerminalRenderOutcome::Idle,
        ]
    );
    assert_eq!(committed, 1);
    assert_eq!(full_repaints, 1);
    assert_eq!(pending, Invalidation::Nothing);
}

#[test]
fn failed_commits_and_terminal_changes_request_work() {
    assert_eq!(after_failed_commit(Invalidation::Nothing), Invalidation::Paint);
    assert_eq!(after_failed_commit(Invalidation::Layout), Invalidation::Layout);
    assert_eq!(
        synchronized_invalidation(Invalidation::Nothing, false, true, false),
        Invalidation::Paint
    );
    assert_eq!(
        synchronized_invalidation(Invalidation::Paint, false, false, true),
        Invalidation::Layout
    );
    assert_eq!(
        synchronized_invalidation(Invalidation::Recompose, true, true, true),
        Invalidation::Recompose
    );
    assert_eq!(
        synchronized_invalidation(Invalidation::Nothing, false, false, false),
        Invalidation::Nothing
    );
}
