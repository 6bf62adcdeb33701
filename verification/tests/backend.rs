use arborui::backend::{
    BackendState, BackendStep, KeyboardFlags, RestoreStep, TerminalSupport,
};
use arborui::frame::FramePatch;
use arborui::geometry::{CursorState, Point, Size};
use arborui::terminal::{
    sanitized_title, AutowrapMode, KeyboardMode, MouseMode, ScreenMode, TerminalState,
};

/// Runs one state application; the flush fails when `flush_fails` is set.
/// Returns the commands sent and whether the application succeeded.
fn apply(
    state: &mut BackendState,
    desired: &TerminalState,
    flush_fails: bool,
) -> (Vec<BackendStep>, bool) {
    let (target, steps) = state.plan(desired);
    let mut sent = Vec::new();
    for step in steps {
        if step == BackendStep::Flush && flush_fails {
            return (sent, false);
        }
        sent.push(step);
        state.complete(step, &target);
    }
    (sent, true)
}

/// Runs one restore; the flush fails when `flush_fails` is set.
fn restore(state: &mut BackendState, flush_fails: bool) -> (Vec<RestoreStep>, bool) {
    let mut sent = Vec::new();
    let mut output_ok = true;
    for step in state.restore_steps() {
        if step == RestoreStep::Flush && flush_fails {
            output_ok = false;
            break;
        }
        sent.push(step);
        state.complete_restore_step(step);
    }
    let raw_disabled = state.raw_restore_needed();
    (sent, state.finish_restore(output_ok, raw_disabled))
}

fn all_support() -> TerminalSupport {
    TerminalSupport {
        mouse: true,
        enhanced_keyboard: true,
        bracketed_paste: true,
        focus_reporting: true,
        synchronized_updates: true,
    }
}

#[test]
fn applies_and_restores_owned_terminal_modes() {
    let mut state = BackendState::new(all_support(), false);
    let desired = TerminalState {
        cursor: CursorState::hidden(),
        mouse: MouseMode::Capture,
        bracketed_paste: true,
        focus_reporting: true,
        synchronized_updates: true,
        autowrap: AutowrapMode::Disabled,
        title: Some(String::from("arborui test")),
        ..TerminalState::default()
    };

    let (sent, applied) = apply(&mut state, &desired, false);
    assert!(applied);
    assert!(sent.contains(&BackendStep::Mouse(MouseMode::Capture)));
    assert!(sent.contains(&BackendStep::BracketedPaste(true)));
    assert!(sent.contains(&BackendStep::Title));

    let (restored, ok) = restore(&mut state, false);
    assert!(ok);
    assert!(restored.contains(&RestoreStep::DisableMouseCapture));
    assert!(restored.contains(&RestoreStep::DisableBracketedPaste));
    assert!(restored.contains(&RestoreStep::ClearTitle));
    assert_eq!(state.active, TerminalState::default());
}

#[test]
fn empty_patch_does_not_update_tracked_cursor_state() {
    let mut state = BackendState::new(TerminalSupport::default(), false);
    let (_, applied) = apply(
        &mut state,
        &TerminalState {
            cursor: CursorState::visible(Point::origin()),
            ..TerminalState::default()
        },
        false,
    );
    assert!(applied);

    let empty = FramePatch {
        size: Size::new(1, 1),
        runs: Vec::new(),
        cursor: CursorState::hidden(),
        cursor_changed: false,
        full_repaint: false,
    };
    state.record_patch(&empty);

    let (sent, _) = apply(
        &mut state,
        &TerminalState {
            cursor: CursorState::hidden(),
            ..TerminalState::default()
        },
        false,
    );
    assert!(
        sent.contains(&BackendStep::Cursor(CursorState::hidden())),
        "the empty patch emitted no bytes, so hiding the cursor afterwards must still send a hide"
    );
}

#[test]
fn failed_apply_state_flush_is_resent_on_retry() {
    let mut state = BackendState::new(TerminalSupport::default(), false);
    let desired = TerminalState {
        screen: ScreenMode::Alternate,
        ..TerminalState::default()
    };

    let (first, applied) = apply(&mut state, &desired, true);
    assert!(!applied);
    let (second, applied) = apply(&mut state, &desired, false);
    assert!(applied);
    let enters = first
        .iter()
        .chain(second.iter())
        .filter(|step| **step == BackendStep::Screen(ScreenMode::Alternate))
        .count();
    assert_eq!(
        enters, 2,
        "a failed flush leaves delivery unconfirmed, so retrying the same desired state must \
         re-send the mode changes"
    );
}

#[test]
fn failed_restore_keeps_active_state_for_retry() {
    let mut state = BackendState::new(TerminalSupport::default(), false);
    let desired = TerminalState {
        screen: ScreenMode::Alternate,
        cursor: CursorState::hidden(),
        ..TerminalState::default()
    };
    let (_, applied) = apply(&mut state, &desired, false);
    assert!(applied);

    let (_, restored) = restore(&mut state, true);
    assert!(!restored);
    assert_eq!(state.active.screen, ScreenMode::Alternate);
    let (_, restored) = restore(&mut state, false);
    assert!(restored);
    assert_eq!(state.active, TerminalState::default());
}

#[test]
fn failed_restore_flush_requires_screen_mode_reapplication() {
    let mut state = BackendState::new(TerminalSupport::default(), false);
    let desired = TerminalState {
        screen: ScreenMode::Alternate,
        ..TerminalState::default()
    };
    let (_, applied) = apply(&mut state, &desired, false);
    assert!(applied);

    let (left, restored) = restore(&mut state, true);
    assert!(!restored);
    assert!(left.contains(&RestoreStep::LeaveAlternateScreen));
    let (again, applied) = apply(&mut state, &desired, false);
    assert!(applied);
    assert!(
        again.contains(&BackendStep::Screen(ScreenMode::Alternate)),
        "a failed restore flush leaves a queued leave-alternate-screen sequence, so the tracked \
         screen mode must be invalidated and re-entered before output resumes"
    );
}

#[test]
fn keyboard_stack_commands_are_not_repeated_after_failed_flushes() {
    let support = TerminalSupport {
        enhanced_keyboard: true,
        ..TerminalSupport::default()
    };
    let mut state = BackendState::new(support, false);
    let desired = TerminalState {
        keyboard: KeyboardMode::Enhanced,
        screen: ScreenMode::Alternate,
        ..TerminalState::default()
    };

    let (first, applied) = apply(&mut state, &desired, true);
    assert!(!applied);
    let (second, applied) = apply(&mut state, &desired, false);
    assert!(applied);
    let (restored, ok) = restore(&mut state, false);
    assert!(ok);

    let pushes = first
        .iter()
        .chain(second.iter())
        .filter(|step| matches!(step, BackendStep::Keyboard(_, KeyboardFlags::Push)))
        .count();
    let pops = first
        .iter()
        .chain(second.iter())
        .filter(|step| matches!(step, BackendStep::Keyboard(_, KeyboardFlags::Pop)))
        .count()
        + restored
            .iter()
            .filter(|step| **step == RestoreStep::PopKeyboard)
            .count();
    assert_eq!(pushes, 1);
    assert_eq!(pops, 1);
}

#[test]
fn terminal_titles_cannot_inject_control_sequences() {
    let mut state = BackendState::new(TerminalSupport::default(), false);
    let desired = TerminalState {
        title: Some(String::from("safe\x07\x1b]2;unsafe")),
        ..TerminalState::default()
    };
    let (sent, applied) = apply(&mut state, &desired, false);
    assert!(applied);
    assert!(sent.contains(&BackendStep::Title));

    let title = sanitized_title("safe\x07\x1b]2;unsafe");
    assert!(
        !title.contains("\x07\x1b]2;unsafe"),
        "BEL and ESC from the requested title must not terminate its OSC sequence"
    );
    assert!(title.contains("safe]2;uns"));
}

#[test]
fn effective_state_preserves_preexisting_raw_mode() {
    let state = BackendState::new(TerminalSupport::default(), true);

    assert!(state.effective_state(&TerminalState::default()).raw_mode);
}

#[test]
fn unsupported_modes_stay_off() {
    let state = BackendState::new(TerminalSupport::default(), false);
    let effective = state.effective_state(&TerminalState {
        mouse: MouseMode::Capture,
        keyboard: KeyboardMode::Enhanced,
        bracketed_paste: true,
        focus_reporting: true,
        synchronized_updates: true,
        ..TerminalState::default()
    });

    assert_eq!(effective.mouse, MouseMode::Disabled);
    assert_eq!(effective.keyboard, KeyboardMode::Legacy);
    assert!(!effective.bracketed_paste);
    assert!(!effective.focus_reporting);
    assert!(!effective.synchronized_updates);
}

#[test]
fn raw_mode_is_enabled_first_and_disabled_after_the_flush() {
    let mut state = BackendState::new(TerminalSupport::default(), false);
    let (sent, applied) = apply(&mut state, &TerminalState::fullscreen(), false);
    assert!(applied);
    assert_eq!(sent.first(), Some(&BackendStep::EnableRawMode));

    let (sent, applied) = apply(&mut state, &TerminalState::default(), false);
    assert!(applied);
    assert_eq!(sent.last(), Some(&BackendStep::DisableRawMode));
    assert!(!state.active.raw_mode);
    assert!(!state.confirmed.raw_mode);
}

#[test]
fn unchanged_state_sends_only_the_flush() {
    let mut state = BackendState::new(TerminalSupport::default(), false);
    let (sent, applied) = apply(&mut state, &TerminalState::default(), false);
    assert!(applied);
    assert_eq!(
        sent,
        vec![BackendStep::SynchronizedUpdates(false), BackendStep::Flush]
    );
}
