//! Terminal-mode bookkeeping of a terminal backend.
//!
//! A backend owns the terminal modes it turns on. It tracks the state it last
//! requested (`active`) and the state whose delivery was confirmed by a
//! successful flush (`confirmed`). A mode command is sent whenever the desired
//! value differs from either, so output lost to a failed flush is sent again.
//! The functions here decide which commands to send and how each completed
//! command changes the bookkeeping; performing the commands is the caller's
//! part.
use vstd::prelude::*;

use crate::frame::{patch_is_empty, FramePatch};
use crate::geometry::CursorState;
use crate::terminal::{AutowrapMode, KeyboardMode, MouseMode, ScreenMode, TerminalState};

verus! {

/// Which of the modes a backend manages the terminal supports.
#[derive(Clone, Copy, Debug, Default, Eq, PartialEq, Structural)]
pub struct TerminalSupport {
    /// Mouse reporting.
    pub mouse: bool,
    /// Progressive keyboard enhancement.
    pub enhanced_keyboard: bool,
    /// Bracketed paste.
    pub bracketed_paste: bool,
    /// Focus change reporting.
    pub focus_reporting: bool,
    /// Synchronized updates.
    pub synchronized_updates: bool,
}

/// What a keyboard-mode change does to the terminal's keyboard flag stack.
#[derive(Clone, Copy, Debug, Eq, PartialEq, Structural)]
pub enum KeyboardFlags {
    /// Push enhancement flags.
    Push,
    /// Pop the flags this backend pushed.
    Pop,
    /// Leave the stack as it is.
    Keep,
}

/// One command toward a desired terminal state.
#[derive(Clone, Copy, Debug, Eq, PartialEq, Structural)]
pub enum BackendStep {
    /// Enable raw input mode.
    EnableRawMode,
    /// Enter (`Alternate`) or leave (`Main`) the alternate screen.
    Screen(ScreenMode),
    /// Enable or disable mouse capture.
    Mouse(MouseMode),
    /// Enable or disable focus change reporting.
    FocusReporting(bool),
    /// Enable or disable bracketed paste.
    BracketedPaste(bool),
    /// Switch the keyboard protocol, with what it does to the flag stack.
    Keyboard(KeyboardMode, KeyboardFlags),
    /// Disable line wrap (`Disabled`) or enable it (otherwise).
    Autowrap(AutowrapMode),
    /// Set the title of the target state, without control characters.
    Title,
    /// Show the cursor at its cell, or hide it.
    Cursor(CursorState),
    /// Record whether frame writes use synchronized updates; sends nothing.
    SynchronizedUpdates(bool),
    /// Flush queued output; success confirms the target state.
    Flush,
    /// Disable raw input mode.
    DisableRawMode,
}

/// One command of restoring the terminal.
#[derive(Clone, Copy, Debug, Eq, PartialEq, Structural)]
pub enum RestoreStep {
    /// Pop the keyboard flags this backend pushed.
    PopKeyboard,
    /// Disable mouse capture.
    DisableMouseCapture,
    /// Disable bracketed paste.
    DisableBracketedPaste,
    /// Disable focus change reporting.
    DisableFocusChange,
    /// Leave the alternate screen.
    LeaveAlternateScreen,
    /// Enable line wrap.
    EnableLineWrap,
    /// Clear the title.
    ClearTitle,
    /// Reset attributes and colors, restore the default cursor shape and show the cursor.
    ResetStyle,
    /// Flush queued output.
    Flush,
}

/// The title as text.
pub open spec fn title_view(title: Option<String>) -> Option<Seq<char>> {
    match title {
        Some(text) => Some(text@),
        None => None,
    }
}

/// Two titles hold the same text.
pub open spec fn same_text(first: Option<String>, second: Option<String>) -> bool {
    title_view(first) == title_view(second)
}

/// Two terminal states request the same modes and title text.
pub open spec fn same_state(first: TerminalState, second: TerminalState) -> bool {
    &&& first.raw_mode == second.raw_mode
    &&& first.screen == second.screen
    &&& first.cursor == second.cursor
    &&& first.mouse == second.mouse
    &&& first.keyboard == second.keyboard
    &&& first.bracketed_paste == second.bracketed_paste
    &&& first.focus_reporting == second.focus_reporting
    &&& first.synchronized_updates == second.synchronized_updates
    &&& title_view(first.title) == title_view(second.title)
    &&& first.autowrap == second.autowrap
}

/// The default terminal state with the given raw mode.
pub open spec fn resting_state(raw_mode: bool) -> TerminalState {
    TerminalState {
        raw_mode,
        screen: ScreenMode::Main,
        cursor: CursorState::spec_visible(crate::geometry::Point::spec_origin()),
        mouse: MouseMode::Disabled,
        keyboard: KeyboardMode::Legacy,
        bracketed_paste: false,
        focus_reporting: false,
        synchronized_updates: false,
        title: None,
        autowrap: AutowrapMode::Preserve,
    }
}

/// `steps` followed by `step` when `condition` holds.
#[verifier::opaque]
pub open spec fn push_if(steps: Seq<BackendStep>, condition: bool, step: BackendStep) -> Seq<
    BackendStep,
> {
    if condition {
        steps.push(step)
    } else {
        steps
    }
}

/// A restore step when `condition` holds, and nothing otherwise.
pub open spec fn restore_if(condition: bool, step: RestoreStep) -> Seq<RestoreStep> {
    if condition {
        seq![step]
    } else {
        Seq::empty()
    }
}

/// What a keyboard-mode change to `mode` does to the flag stack.
pub open spec fn keyboard_flags(mode: KeyboardMode, pushed: bool) -> KeyboardFlags {
    match mode {
        KeyboardMode::Legacy => if pushed {
            KeyboardFlags::Pop
        } else {
            KeyboardFlags::Keep
        },
        KeyboardMode::Enhanced => if pushed {
            KeyboardFlags::Keep
        } else {
            KeyboardFlags::Push
        },
    }
}

/// Appends `step` when `condition` holds.
fn push_step_if(steps: &mut Vec<BackendStep>, condition: bool, step: BackendStep)
    ensures
        final(steps)@ == push_if(old(steps)@, condition, step),
{
    reveal(push_if);
    if condition {
        steps.push(step);
    }
}

/// Appends `step` when `condition` holds.
fn push_restore_if(steps: &mut Vec<RestoreStep>, condition: bool, step: RestoreStep)
    ensures
        final(steps)@ == old(steps)@ + restore_if(condition, step),
{
    let ghost before = steps@;
    if condition {
        steps.push(step);
    }
    proof {
        assert(steps@ =~= before + restore_if(condition, step));
    }
}

/// Copy of a title.
fn copy_title(title: &Option<String>) -> (copy: Option<String>)
    ensures
        copy == *title,
{
    match title {
        Some(text) => Some(text.clone()),
        None => None,
    }
}

/// Copy of a terminal state.
pub fn copy_state(state: &TerminalState) -> (copy: TerminalState)
    ensures
        copy == *state,
{
    TerminalState {
        raw_mode: state.raw_mode,
        screen: state.screen,
        cursor: state.cursor,
        mouse: state.mouse,
        keyboard: state.keyboard,
        bracketed_paste: state.bracketed_paste,
        focus_reporting: state.focus_reporting,
        synchronized_updates: state.synchronized_updates,
        title: copy_title(&state.title),
        autowrap: state.autowrap,
    }
}

/// Whether two titles hold the same text.
fn same_title(first: &Option<String>, second: &Option<String>) -> (same: bool)
    ensures
        same == same_text(*first, *second),
{
    match (first, second) {
        (Some(first), Some(second)) => *first == *second,
        (None, None) => true,
        _ => false,
    }
}

/// Whether `state` asks for the default screen, modes and title.
fn resting(raw_mode: bool) -> (state: TerminalState)
    ensures
        state == resting_state(raw_mode),
{
    TerminalState { raw_mode, ..TerminalState::default() }
}

/// Terminal-mode bookkeeping of a backend.
pub struct BackendState {
    /// What the terminal supports.
    pub support: TerminalSupport,
    /// The state last requested.
    pub active: TerminalState,
    /// The state whose delivery a successful flush confirmed.
    pub confirmed: TerminalState,
    /// Whether this backend pushed keyboard enhancement flags.
    pub keyboard_pushed: bool,
    /// Whether raw mode was enabled before the backend started.
    pub original_raw_mode: bool,
}

impl BackendState {
    /// The state the backend actually targets for `desired`: raw mode stays on
    /// when it was on before the backend started, and unsupported modes stay off.
    pub open spec fn spec_effective(self, desired: TerminalState) -> TerminalState {
        TerminalState {
            raw_mode: desired.raw_mode || self.original_raw_mode,
            mouse: if self.support.mouse {
                desired.mouse
            } else {
                MouseMode::Disabled
            },
            keyboard: if self.support.enhanced_keyboard {
                desired.keyboard
            } else {
                KeyboardMode::Legacy
            },
            bracketed_paste: desired.bracketed_paste && self.support.bracketed_paste,
            focus_reporting: desired.focus_reporting && self.support.focus_reporting,
            synchronized_updates: desired.synchronized_updates
                && self.support.synchronized_updates,
            ..desired
        }
    }

    /// The commands that move the terminal to `target`, in order.
    pub open spec fn spec_steps(self, target: TerminalState) -> Seq<BackendStep> {
        push_if(
            self.spec_steps_before_flush(target).push(BackendStep::Flush),
            !target.raw_mode && self.active.raw_mode,
            BackendStep::DisableRawMode,
        )
    }

    /// The commands toward `target` that precede the confirming flush.
    pub open spec fn spec_steps_before_flush(self, target: TerminalState) -> Seq<BackendStep> {
        let active = self.active;
        let confirmed = self.confirmed;
        let keyboard = push_if(
            self.spec_mode_steps(target),
            target.keyboard != active.keyboard || target.keyboard != confirmed.keyboard,
            BackendStep::Keyboard(
                target.keyboard,
                keyboard_flags(target.keyboard, self.keyboard_pushed),
            ),
        );
        let autowrap = push_if(
            keyboard,
            target.autowrap != active.autowrap || target.autowrap != confirmed.autowrap,
            BackendStep::Autowrap(target.autowrap),
        );
        let title = push_if(
            autowrap,
            !same_text(target.title, active.title) || !same_text(target.title, confirmed.title),
            BackendStep::Title,
        );
        let cursor = push_if(
            title,
            target.cursor != active.cursor || target.cursor != confirmed.cursor,
            BackendStep::Cursor(target.cursor),
        );
        cursor.push(BackendStep::SynchronizedUpdates(target.synchronized_updates))
    }

    /// The first commands toward `target`: raw mode, screen, and input reporting.
    #[verifier::opaque]
    pub open spec fn spec_mode_steps(self, target: TerminalState) -> Seq<BackendStep> {
        let active = self.active;
        let confirmed = self.confirmed;
        let raw = push_if(
            Seq::empty(),
            target.raw_mode && !active.raw_mode,
            BackendStep::EnableRawMode,
        );
        let screen = push_if(
            raw,
            target.screen != active.screen || target.screen != confirmed.screen,
            BackendStep::Screen(target.screen),
        );
        let mouse = push_if(
            screen,
            target.mouse != active.mouse || target.mouse != confirmed.mouse,
            BackendStep::Mouse(target.mouse),
        );
        let focus = push_if(
            mouse,
            target.focus_reporting != active.focus_reporting || target.focus_reporting
                != confirmed.focus_reporting,
            BackendStep::FocusReporting(target.focus_reporting),
        );
        push_if(
            focus,
            target.bracketed_paste != active.bracketed_paste || target.bracketed_paste
                != confirmed.bracketed_paste,
            BackendStep::BracketedPaste(target.bracketed_paste),
        )
    }

    /// The requested state after `step` toward `target` succeeded.
    pub open spec fn spec_active_after(self, step: BackendStep, target: TerminalState) -> TerminalState {
        let active = self.active;
        match step {
            BackendStep::EnableRawMode => TerminalState { raw_mode: true, ..active },
            BackendStep::Screen(screen) => TerminalState { screen, ..active },
            BackendStep::Mouse(mouse) => TerminalState { mouse, ..active },
            BackendStep::FocusReporting(focus_reporting) => TerminalState {
                focus_reporting,
                ..active
            },
            BackendStep::BracketedPaste(bracketed_paste) => TerminalState {
                bracketed_paste,
                ..active
            },
            BackendStep::Keyboard(keyboard, _) => TerminalState { keyboard, ..active },
            BackendStep::Autowrap(autowrap) => TerminalState { autowrap, ..active },
            BackendStep::Title => TerminalState { title: target.title, ..active },
            BackendStep::Cursor(cursor) => TerminalState { cursor, ..active },
            BackendStep::SynchronizedUpdates(synchronized_updates) => TerminalState {
                synchronized_updates,
                ..active
            },
            BackendStep::Flush => active,
            BackendStep::DisableRawMode => TerminalState { raw_mode: false, ..active },
        }
    }

    /// The confirmed state after `step` toward `target` succeeded: a flush
    /// confirms the target, and disabling raw mode is confirmed at once.
    pub open spec fn spec_confirmed_after(self, step: BackendStep, target: TerminalState) -> TerminalState {
        match step {
            BackendStep::Flush => TerminalState { raw_mode: self.active.raw_mode, ..target },
            BackendStep::DisableRawMode => TerminalState { raw_mode: false, ..self.confirmed },
            _ => self.confirmed,
        }
    }

    /// Whether keyboard flags are pushed after `step` succeeded.
    pub open spec fn spec_pushed_after(self, step: BackendStep) -> bool {
        match step {
            BackendStep::Keyboard(_, KeyboardFlags::Push) => true,
            BackendStep::Keyboard(_, KeyboardFlags::Pop) => false,
            _ => self.keyboard_pushed,
        }
    }

    /// The bookkeeping after `step` toward `target` succeeded.
    #[verifier::opaque]
    pub open spec fn spec_complete(self, step: BackendStep, target: TerminalState) -> Self {
        BackendState {
            active: self.spec_active_after(step, target),
            confirmed: self.spec_confirmed_after(step, target),
            keyboard_pushed: self.spec_pushed_after(step),
            ..self
        }
    }

    /// The bookkeeping after every step of `steps` toward `target` succeeded.
    #[verifier::opaque]
    pub open spec fn spec_complete_all(self, steps: Seq<BackendStep>, target: TerminalState) -> Self
        decreases steps.len(),
    {
        if steps.len() == 0 {
            self
        } else {
            self.spec_complete_all(steps.drop_last(), target).spec_complete(steps.last(), target)
        }
    }

    /// The commands that restore the terminal, in order.
    pub open spec fn spec_restore_steps(self) -> Seq<RestoreStep> {
        let active = self.active;
        let confirmed = self.confirmed;
        restore_if(self.keyboard_pushed, RestoreStep::PopKeyboard) + restore_if(
            active.mouse == MouseMode::Capture || confirmed.mouse == MouseMode::Capture,
            RestoreStep::DisableMouseCapture,
        ) + restore_if(
            active.bracketed_paste || confirmed.bracketed_paste,
            RestoreStep::DisableBracketedPaste,
        ) + restore_if(
            active.focus_reporting || confirmed.focus_reporting,
            RestoreStep::DisableFocusChange,
        ) + restore_if(
            active.screen == ScreenMode::Alternate || confirmed.screen == ScreenMode::Alternate,
            RestoreStep::LeaveAlternateScreen,
        ) + restore_if(
            active.autowrap == AutowrapMode::Disabled || confirmed.autowrap
                == AutowrapMode::Disabled,
            RestoreStep::EnableLineWrap,
        ) + restore_if(
            active.title is Some || confirmed.title is Some,
            RestoreStep::ClearTitle,
        ).push(RestoreStep::ResetStyle).push(RestoreStep::Flush)
    }

    /// The bookkeeping after restore step `step` succeeded.
    pub open spec fn spec_restore_complete(self, step: RestoreStep) -> Self {
        if step == RestoreStep::PopKeyboard {
            BackendState { keyboard_pushed: false, ..self }
        } else {
            self
        }
    }

    /// The bookkeeping after every restore step of `steps` succeeded.
    pub open spec fn spec_restore_all(self, steps: Seq<RestoreStep>) -> Self
        decreases steps.len(),
    {
        if steps.len() == 0 {
            self
        } else {
            self.spec_restore_complete(steps[0]).spec_restore_all(steps.drop_first())
        }
    }

    /// Whether restoring must disable raw mode: this backend enabled it.
    pub open spec fn spec_raw_restore_needed(self) -> bool {
        self.active.raw_mode && !self.original_raw_mode
    }

    /// The bookkeeping at the end of a restore: `output_ok` tells whether
    /// every restore step succeeded, `raw_disabled` whether disabling raw
    /// mode succeeded when it was needed.
    pub open spec fn spec_finish_restore(self, output_ok: bool, raw_disabled: bool) -> Self {
        let raw_ok = !self.spec_raw_restore_needed() || raw_disabled;
        let after_raw = if self.spec_raw_restore_needed() && raw_disabled {
            BackendState {
                active: TerminalState { raw_mode: false, ..self.active },
                confirmed: TerminalState { raw_mode: false, ..self.confirmed },
                ..self
            }
        } else {
            self
        };
        let after_output = if output_ok {
            after_raw
        } else {
            BackendState { confirmed: resting_state(after_raw.active.raw_mode), ..after_raw }
        };
        if output_ok && raw_ok {
            BackendState {
                active: resting_state(self.original_raw_mode),
                confirmed: resting_state(self.original_raw_mode),
                ..after_output
            }
        } else {
            after_output
        }
    }

    /// Bookkeeping of a backend that starts with raw mode as it found it.
    pub fn new(support: TerminalSupport, original_raw_mode: bool) -> (state: Self)
        ensures
            state.support == support,
            state.original_raw_mode == original_raw_mode,
            state.active == resting_state(original_raw_mode),
            state.confirmed == resting_state(original_raw_mode),
            !state.keyboard_pushed,
    {
        BackendState {
            support,
            active: resting(original_raw_mode),
            confirmed: resting(original_raw_mode),
            keyboard_pushed: false,
            original_raw_mode,
        }
    }

    /// The state the backend targets for `desired`.
    pub fn effective_state(&self, desired: &TerminalState) -> (effective: TerminalState)
        ensures
            effective == self.spec_effective(*desired),
    {
        let mut effective = copy_state(desired);
        effective.raw_mode = effective.raw_mode || self.original_raw_mode;
        if !self.support.mouse {
            effective.mouse = MouseMode::Disabled;
        }
        if !self.support.enhanced_keyboard {
            effective.keyboard = KeyboardMode::Legacy;
        }
        effective.bracketed_paste = effective.bracketed_paste && self.support.bracketed_paste;
        effective.focus_reporting = effective.focus_reporting && self.support.focus_reporting;
        effective.synchronized_updates = effective.synchronized_updates
            && self.support.synchronized_updates;
        effective
    }

    /// The first commands toward `target`: raw mode, screen, and input reporting.
    fn mode_steps(&self, target: &TerminalState) -> (steps: Vec<BackendStep>)
        ensures
            steps@ === self.spec_mode_steps(*target),
    {
        let active = &self.active;
        let confirmed = &self.confirmed;
        let mut steps: Vec<BackendStep> = Vec::new();
        proof {
            reveal(BackendState::spec_mode_steps);
        }
        push_step_if(&mut steps, target.raw_mode && !active.raw_mode, BackendStep::EnableRawMode);
        push_step_if(
            &mut steps,
            target.screen != active.screen || target.screen != confirmed.screen,
            BackendStep::Screen(target.screen),
        );
        push_step_if(
            &mut steps,
            target.mouse != active.mouse || target.mouse != confirmed.mouse,
            BackendStep::Mouse(target.mouse),
        );
        push_step_if(
            &mut steps,
            target.focus_reporting != active.focus_reporting || target.focus_reporting
                != confirmed.focus_reporting,
            BackendStep::FocusReporting(target.focus_reporting),
        );
        push_step_if(
            &mut steps,
            target.bracketed_paste != active.bracketed_paste || target.bracketed_paste
                != confirmed.bracketed_paste,
            BackendStep::BracketedPaste(target.bracketed_paste),
        );
        steps
    }

    /// The commands that move the terminal to `target`, in order.
    fn steps_toward(&self, target: &TerminalState) -> (steps: Vec<BackendStep>)
        ensures
            steps@ === self.spec_steps(*target),
    {
        let active = &self.active;
        let confirmed = &self.confirmed;
        let mut steps = self.mode_steps(target);
        let flags = match target.keyboard {
            KeyboardMode::Legacy => if self.keyboard_pushed {
                KeyboardFlags::Pop
            } else {
                KeyboardFlags::Keep
            },
            KeyboardMode::Enhanced => if self.keyboard_pushed {
                KeyboardFlags::Keep
            } else {
                KeyboardFlags::Push
            },
        };
        push_step_if(
            &mut steps,
            target.keyboard != active.keyboard || target.keyboard != confirmed.keyboard,
            BackendStep::Keyboard(target.keyboard, flags),
        );
        push_step_if(
            &mut steps,
            target.autowrap != active.autowrap || target.autowrap != confirmed.autowrap,
            BackendStep::Autowrap(target.autowrap),
        );
        let title_changed = !same_title(&target.title, &active.title) || !same_title(
            &target.title,
            &confirmed.title,
        );
        push_step_if(&mut steps, title_changed, BackendStep::Title);
        push_step_if(
            &mut steps,
            target.cursor != active.cursor || target.cursor != confirmed.cursor,
            BackendStep::Cursor(target.cursor),
        );
        steps.push(BackendStep::SynchronizedUpdates(target.synchronized_updates));
        steps.push(BackendStep::Flush);
        push_step_if(&mut steps, !target.raw_mode && active.raw_mode, BackendStep::DisableRawMode);
        steps
    }

    /// The target state for `desired` and the commands that reach it, in order.
    pub fn plan(&self, desired: &TerminalState) -> (plan: (TerminalState, Vec<BackendStep>))
        ensures
            plan.0 == self.spec_effective(*desired),
            plan.1@ == self.spec_steps(plan.0),
    {
        let target = self.effective_state(desired);
        let steps = self.steps_toward(&target);
        (target, steps)
    }

    /// The requested state after `step` toward `target` succeeded.
    fn active_after(&self, step: BackendStep, target: &TerminalState) -> (active: TerminalState)
        ensures
            active == self.spec_active_after(step, *target),
    {
        let mut active = copy_state(&self.active);
        match step {
            BackendStep::EnableRawMode => active.raw_mode = true,
            BackendStep::Screen(screen) => active.screen = screen,
            BackendStep::Mouse(mouse) => active.mouse = mouse,
            BackendStep::FocusReporting(focus_reporting) => active.focus_reporting = focus_reporting,
            BackendStep::BracketedPaste(bracketed_paste) => active.bracketed_paste = bracketed_paste,
            BackendStep::Keyboard(keyboard, _) => active.keyboard = keyboard,
            BackendStep::Autowrap(autowrap) => active.autowrap = autowrap,
            BackendStep::Title => active.title = copy_title(&target.title),
            BackendStep::Cursor(cursor) => active.cursor = cursor,
            BackendStep::SynchronizedUpdates(synchronized_updates) => {
                active.synchronized_updates = synchronized_updates
            },
            BackendStep::Flush => {},
            BackendStep::DisableRawMode => active.raw_mode = false,
        }
        active
    }

    /// The confirmed state after `step` toward `target` succeeded.
    fn confirmed_after(&self, step: BackendStep, target: &TerminalState) -> (confirmed:
        TerminalState)
        ensures
            confirmed == self.spec_confirmed_after(step, *target),
    {
        match step {
            BackendStep::Flush => {
                let mut confirmed = copy_state(target);
                confirmed.raw_mode = self.active.raw_mode;
                confirmed
            },
            BackendStep::DisableRawMode => {
                let mut confirmed = copy_state(&self.confirmed);
                confirmed.raw_mode = false;
                confirmed
            },
            _ => copy_state(&self.confirmed),
        }
    }

    /// Records that `step` toward `target` succeeded.
    pub fn complete(&mut self, step: BackendStep, target: &TerminalState)
        ensures
            *final(self) == old(self).spec_complete(step, *target),
    {
        proof {
            reveal(BackendState::spec_complete);
        }
        let active = self.active_after(step, target);
        let confirmed = self.confirmed_after(step, target);
        let keyboard_pushed = match step {
            BackendStep::Keyboard(_, KeyboardFlags::Push) => true,
            BackendStep::Keyboard(_, KeyboardFlags::Pop) => false,
            _ => self.keyboard_pushed,
        };
        self.active = active;
        self.confirmed = confirmed;
        self.keyboard_pushed = keyboard_pushed;
    }

    /// Records the cursor a written patch left behind; an empty patch writes
    /// nothing and changes nothing.
    pub fn record_patch(&mut self, patch: &FramePatch)
        ensures
            patch_is_empty(*patch) ==> *final(self) == *old(self),
            !patch_is_empty(*patch) ==> *final(self) == (BackendState {
                active: TerminalState { cursor: patch.cursor, ..old(self).active },
                confirmed: TerminalState { cursor: patch.cursor, ..old(self).confirmed },
                ..*old(self)
            }),
    {
        if !patch.is_empty() {
            self.active.cursor = patch.cursor;
            self.confirmed.cursor = patch.cursor;
        }
    }

    /// The commands that restore the terminal, in order.
    pub fn restore_steps(&self) -> (steps: Vec<RestoreStep>)
        ensures
            steps@ == self.spec_restore_steps(),
    {
        let active = &self.active;
        let confirmed = &self.confirmed;
        let mut steps: Vec<RestoreStep> = Vec::new();
        push_restore_if(&mut steps, self.keyboard_pushed, RestoreStep::PopKeyboard);
        proof {
            assert(steps@ =~= restore_if(self.keyboard_pushed, RestoreStep::PopKeyboard));
        }
        push_restore_if(
            &mut steps,
            active.mouse == MouseMode::Capture || confirmed.mouse == MouseMode::Capture,
            RestoreStep::DisableMouseCapture,
        );
        push_restore_if(
            &mut steps,
            active.bracketed_paste || confirmed.bracketed_paste,
            RestoreStep::DisableBracketedPaste,
        );
        push_restore_if(
            &mut steps,
            active.focus_reporting || confirmed.focus_reporting,
            RestoreStep::DisableFocusChange,
        );
        push_restore_if(
            &mut steps,
            active.screen == ScreenMode::Alternate || confirmed.screen == ScreenMode::Alternate,
            RestoreStep::LeaveAlternateScreen,
        );
        push_restore_if(
            &mut steps,
            active.autowrap == AutowrapMode::Disabled || confirmed.autowrap == AutowrapMode::Disabled,
            RestoreStep::EnableLineWrap,
        );
        push_restore_if(
            &mut steps,
            active.title.is_some() || confirmed.title.is_some(),
            RestoreStep::ClearTitle,
        );
        steps.push(RestoreStep::ResetStyle);
        steps.push(RestoreStep::Flush);
        steps
    }

    /// Records that a restore step succeeded: popping the keyboard flags
    /// forgets that they were pushed.
    pub fn complete_restore_step(&mut self, step: RestoreStep)
        ensures
            *final(self) == old(self).spec_restore_complete(step),
    {
        if step == RestoreStep::PopKeyboard {
            self.keyboard_pushed = false;
        }
    }

    /// Whether restoring must disable raw mode.
    pub fn raw_restore_needed(&self) -> (needed: bool)
        ensures
            needed == self.spec_raw_restore_needed(),
    {
        self.active.raw_mode && !self.original_raw_mode
    }

    /// Records the end of a restore and returns whether it succeeded.
    ///
    /// When output failed, delivery of every mode is unconfirmed, so the next
    /// state application sends each requested mode again.
    pub fn finish_restore(&mut self, output_ok: bool, raw_disabled: bool) -> (restored: bool)
        ensures
            *final(self) == old(self).spec_finish_restore(output_ok, raw_disabled),
            restored == (output_ok && (!old(self).spec_raw_restore_needed() || raw_disabled)),
    {
        let needed = self.raw_restore_needed();
        let raw_ok = !needed || raw_disabled;
        if needed && raw_disabled {
            self.active.raw_mode = false;
            self.confirmed.raw_mode = false;
        }
        if !output_ok {
            self.confirmed = resting(self.active.raw_mode);
        }
        if output_ok && raw_ok {
            self.active = resting(self.original_raw_mode);
            self.confirmed = resting(self.original_raw_mode);
        }
        output_ok && raw_ok
    }
}

/// Completing a step that only changes the requested state.
proof fn lemma_complete_request(state: BackendState, step: BackendStep, target: TerminalState)
    requires
        !(step is Keyboard) && !(step is Flush) && !(step is DisableRawMode),
    ensures
        state.spec_complete(step, target) == (BackendState {
            active: state.spec_active_after(step, target),
            ..state
        }),
{
    reveal(BackendState::spec_complete);
}

/// Completing a keyboard step.
proof fn lemma_complete_keyboard(
    state: BackendState,
    mode: KeyboardMode,
    flags: KeyboardFlags,
    target: TerminalState,
)
    ensures
        state.spec_complete(BackendStep::Keyboard(mode, flags), target) == (BackendState {
            active: TerminalState { keyboard: mode, ..state.active },
            keyboard_pushed: match flags {
                KeyboardFlags::Push => true,
                KeyboardFlags::Pop => false,
                KeyboardFlags::Keep => state.keyboard_pushed,
            },
            ..state
        }),
{
    reveal(BackendState::spec_complete);
}

/// Completing the confirming flush.
proof fn lemma_complete_flush(state: BackendState, target: TerminalState)
    ensures
        state.spec_complete(BackendStep::Flush, target) == (BackendState {
            confirmed: TerminalState { raw_mode: state.active.raw_mode, ..target },
            ..state
        }),
{
    reveal(BackendState::spec_complete);
}

/// Completing the final raw-mode switch.
proof fn lemma_complete_raw_off(state: BackendState, target: TerminalState)
    ensures
        state.spec_complete(BackendStep::DisableRawMode, target) == (BackendState {
            active: TerminalState { raw_mode: false, ..state.active },
            confirmed: TerminalState { raw_mode: false, ..state.confirmed },
            ..state
        }),
{
    reveal(BackendState::spec_complete);
}

/// Completing no step changes nothing.
proof fn lemma_complete_none(state: BackendState, target: TerminalState)
    ensures
        state.spec_complete_all(Seq::empty(), target) == state,
{
    reveal(BackendState::spec_complete_all);
}

/// Completing one more step.
proof fn lemma_complete_then(
    state: BackendState,
    prefix: Seq<BackendStep>,
    step: BackendStep,
    target: TerminalState,
)
    ensures
        state.spec_complete_all(prefix.push(step), target) == state.spec_complete_all(
            prefix,
            target,
        ).spec_complete(step, target),
{
    reveal(BackendState::spec_complete_all);
    assert(prefix.push(step).drop_last() =~= prefix);
}

/// Completing one more step when `condition` holds.
proof fn lemma_complete_then_if(
    state: BackendState,
    prefix: Seq<BackendStep>,
    condition: bool,
    step: BackendStep,
    target: TerminalState,
)
    ensures
        state.spec_complete_all(push_if(prefix, condition, step), target) == if condition {
            state.spec_complete_all(prefix, target).spec_complete(step, target)
        } else {
            state.spec_complete_all(prefix, target)
        },
{
    reveal(push_if);
    if condition {
        lemma_complete_then(state, prefix, step, target);
    }
}

/// The bookkeeping once the first commands toward `target` succeeded.
/// The bookkeeping once the raw-mode and screen commands toward `target` succeeded.
proof fn lemma_screen_steps(state: BackendState, target: TerminalState)
    ensures
        ({
            let active = state.active;
            let confirmed = state.confirmed;
            let raw = push_if(
                Seq::empty(),
                target.raw_mode && !active.raw_mode,
                BackendStep::EnableRawMode,
            );
            let screen = push_if(
                raw,
                target.screen != active.screen || target.screen != confirmed.screen,
                BackendStep::Screen(target.screen),
            );
            state.spec_complete_all(screen, target) == BackendState {
                active: TerminalState {
                    raw_mode: target.raw_mode || active.raw_mode,
                    screen: target.screen,
                    ..active
                },
                ..state
            }
        }),
{
    let active = state.active;
    let confirmed = state.confirmed;
    let empty = Seq::<BackendStep>::empty();
    let raw_sent = target.raw_mode && !active.raw_mode;
    let screen_sent = target.screen != active.screen || target.screen != confirmed.screen;
    let raw = push_if(empty, raw_sent, BackendStep::EnableRawMode);
    let a1 = TerminalState { raw_mode: target.raw_mode || active.raw_mode, ..active };
    assert(state.spec_complete_all(empty, target) == state) by {
        lemma_complete_none(state, target);
    }
    assert(state.spec_complete_all(raw, target) == BackendState { active: a1, ..state }) by {
        lemma_complete_then_if(state, empty, raw_sent, BackendStep::EnableRawMode, target);
        lemma_complete_request(state, BackendStep::EnableRawMode, target);
    }
    lemma_complete_then_if(state, raw, screen_sent, BackendStep::Screen(target.screen), target);
    lemma_complete_request(
        BackendState { active: a1, ..state },
        BackendStep::Screen(target.screen),
        target,
    );
}

/// One more request-only step, from a known bookkeeping state.
proof fn lemma_request_step(
    state: BackendState,
    prefix: Seq<BackendStep>,
    condition: bool,
    step: BackendStep,
    target: TerminalState,
    before: BackendState,
    after: BackendState,
)
    requires
        !(step is Keyboard) && !(step is Flush) && !(step is DisableRawMode),
        state.spec_complete_all(prefix, target) == before,
        after == (if condition {
            BackendState { active: before.spec_active_after(step, target), ..before }
        } else {
            before
        }),
    ensures
        state.spec_complete_all(push_if(prefix, condition, step), target) == after,
{
    lemma_complete_then_if(state, prefix, condition, step, target);
    lemma_complete_request(before, step, target);
}

/// The bookkeeping once the raw-mode, screen and mouse commands toward `target` succeeded.
proof fn lemma_mouse_steps(state: BackendState, target: TerminalState)
    ensures
        ({
            let active = state.active;
            let confirmed = state.confirmed;
            let raw = push_if(
                Seq::empty(),
                target.raw_mode && !active.raw_mode,
                BackendStep::EnableRawMode,
            );
            let screen = push_if(
                raw,
                target.screen != active.screen || target.screen != confirmed.screen,
                BackendStep::Screen(target.screen),
            );
            let mouse = push_if(
                screen,
                target.mouse != active.mouse || target.mouse != confirmed.mouse,
                BackendStep::Mouse(target.mouse),
            );
            state.spec_complete_all(mouse, target) == BackendState {
                active: TerminalState {
                    raw_mode: target.raw_mode || active.raw_mode,
                    screen: target.screen,
                    mouse: target.mouse,
                    ..active
                },
                ..state
            }
        }),
{
    let active = state.active;
    let confirmed = state.confirmed;
    let raw = push_if(
        Seq::empty(),
        target.raw_mode && !active.raw_mode,
        BackendStep::EnableRawMode,
    );
    let screen = push_if(
        raw,
        target.screen != active.screen || target.screen != confirmed.screen,
        BackendStep::Screen(target.screen),
    );
    let a2 = TerminalState {
        raw_mode: target.raw_mode || active.raw_mode,
        screen: target.screen,
        ..active
    };
    lemma_screen_steps(state, target);
    lemma_request_step(
        state,
        screen,
        target.mouse != active.mouse || target.mouse != confirmed.mouse,
        BackendStep::Mouse(target.mouse),
        target,
        BackendState { active: a2, ..state },
        BackendState { active: TerminalState { mouse: target.mouse, ..a2 }, ..state },
    );
}

/// The bookkeeping once the first commands toward `target`, up to focus
/// reporting, succeeded.
proof fn lemma_focus_steps(state: BackendState, target: TerminalState)
    ensures
        ({
            let active = state.active;
            let confirmed = state.confirmed;
            let raw = push_if(
                Seq::empty(),
                target.raw_mode && !active.raw_mode,
                BackendStep::EnableRawMode,
            );
            let screen = push_if(
                raw,
                target.screen != active.screen || target.screen != confirmed.screen,
                BackendStep::Screen(target.screen),
            );
            let mouse = push_if(
                screen,
                target.mouse != active.mouse || target.mouse != confirmed.mouse,
                BackendStep::Mouse(target.mouse),
            );
            let focus = push_if(
                mouse,
                target.focus_reporting != active.focus_reporting || target.focus_reporting
                    != confirmed.focus_reporting,
                BackendStep::FocusReporting(target.focus_reporting),
            );
            state.spec_complete_all(focus, target) == BackendState {
                active: TerminalState {
                    raw_mode: target.raw_mode || active.raw_mode,
                    screen: target.screen,
                    mouse: target.mouse,
                    focus_reporting: target.focus_reporting,
                    ..active
                },
                ..state
            }
        }),
{
    let active = state.active;
    let confirmed = state.confirmed;
    let raw = push_if(
        Seq::empty(),
        target.raw_mode && !active.raw_mode,
        BackendStep::EnableRawMode,
    );
    let screen = push_if(
        raw,
        target.screen != active.screen || target.screen != confirmed.screen,
        BackendStep::Screen(target.screen),
    );
    let mouse = push_if(
        screen,
        target.mouse != active.mouse || target.mouse != confirmed.mouse,
        BackendStep::Mouse(target.mouse),
    );
    let a3 = TerminalState {
        raw_mode: target.raw_mode || active.raw_mode,
        screen: target.screen,
        mouse: target.mouse,
        ..active
    };
    lemma_mouse_steps(state, target);
    lemma_request_step(
        state,
        mouse,
        target.focus_reporting != active.focus_reporting || target.focus_reporting
            != confirmed.focus_reporting,
        BackendStep::FocusReporting(target.focus_reporting),
        target,
        BackendState { active: a3, ..state },
        BackendState { active: TerminalState { focus_reporting: target.focus_reporting, ..a3 }, ..state },
    );
}

/// The bookkeeping once the first commands toward `target` succeeded.
#[verifier::spinoff_prover]
#[verifier::rlimit(40)]
proof fn lemma_mode_steps(state: BackendState, target: TerminalState)
    ensures
        state.spec_complete_all(state.spec_mode_steps(target), target) === (BackendState {
            active: TerminalState {
                raw_mode: target.raw_mode || state.active.raw_mode,
                screen: target.screen,
                mouse: target.mouse,
                focus_reporting: target.focus_reporting,
                bracketed_paste: target.bracketed_paste,
                ..state.active
            },
            ..state
        }),
{
    let active = state.active;
    let confirmed = state.confirmed;
    let raw = push_if(
        Seq::empty(),
        target.raw_mode && !active.raw_mode,
        BackendStep::EnableRawMode,
    );
    let screen = push_if(
        raw,
        target.screen != active.screen || target.screen != confirmed.screen,
        BackendStep::Screen(target.screen),
    );
    let mouse = push_if(
        screen,
        target.mouse != active.mouse || target.mouse != confirmed.mouse,
        BackendStep::Mouse(target.mouse),
    );
    let focus = push_if(
        mouse,
        target.focus_reporting != active.focus_reporting || target.focus_reporting
            != confirmed.focus_reporting,
        BackendStep::FocusReporting(target.focus_reporting),
    );
    let a4 = TerminalState {
        raw_mode: target.raw_mode || active.raw_mode,
        screen: target.screen,
        mouse: target.mouse,
        focus_reporting: target.focus_reporting,
        ..active
    };
    assert(state.spec_mode_steps(target) === push_if(
        focus,
        target.bracketed_paste != active.bracketed_paste || target.bracketed_paste
            != confirmed.bracketed_paste,
        BackendStep::BracketedPaste(target.bracketed_paste),
    )) by {
        reveal(BackendState::spec_mode_steps);
    }
    lemma_focus_steps(state, target);
    lemma_request_step(
        state,
        focus,
        target.bracketed_paste != active.bracketed_paste || target.bracketed_paste
            != confirmed.bracketed_paste,
        BackendStep::BracketedPaste(target.bracketed_paste),
        target,
        BackendState { active: a4, ..state },
        BackendState { active: TerminalState { bracketed_paste: target.bracketed_paste, ..a4 }, ..state },
    );
}

/// Whether the plan toward `target` switches the keyboard protocol.
pub open spec fn keyboard_sent(state: BackendState, target: TerminalState) -> bool {
    target.keyboard != state.active.keyboard || target.keyboard != state.confirmed.keyboard
}

/// Whether the plan toward `target` sets the title.
pub open spec fn title_sent(state: BackendState, target: TerminalState) -> bool {
    !same_text(target.title, state.active.title) || !same_text(target.title, state.confirmed.title)
}

/// The bookkeeping after the first commands toward `target`.
pub open spec fn mode_result(state: BackendState, target: TerminalState) -> BackendState {
    BackendState {
        active: TerminalState {
            raw_mode: target.raw_mode || state.active.raw_mode,
            screen: target.screen,
            mouse: target.mouse,
            focus_reporting: target.focus_reporting,
            bracketed_paste: target.bracketed_paste,
            ..state.active
        },
        ..state
    }
}

/// The bookkeeping after the keyboard command toward `target`.
pub open spec fn keyboard_result(state: BackendState, target: TerminalState) -> BackendState {
    let modes = mode_result(state, target);
    BackendState {
        active: TerminalState { keyboard: target.keyboard, ..modes.active },
        keyboard_pushed: if keyboard_sent(state, target) {
            target.keyboard == KeyboardMode::Enhanced
        } else {
            state.keyboard_pushed
        },
        ..modes
    }
}

/// The bookkeeping after every command toward `target` before the flush.
pub open spec fn requested_result(state: BackendState, target: TerminalState) -> BackendState {
    let keyboard = keyboard_result(state, target);
    BackendState {
        active: TerminalState {
            autowrap: target.autowrap,
            title: if title_sent(state, target) {
                target.title
            } else {
                state.active.title
            },
            cursor: target.cursor,
            synchronized_updates: target.synchronized_updates,
            ..keyboard.active
        },
        ..keyboard
    }
}

/// One more keyboard step, from a known bookkeeping state.
proof fn lemma_keyboard_step(state: BackendState, target: TerminalState)
    ensures
        state.spec_complete_all(
            push_if(
                state.spec_mode_steps(target),
                keyboard_sent(state, target),
                BackendStep::Keyboard(
                    target.keyboard,
                    keyboard_flags(target.keyboard, state.keyboard_pushed),
                ),
            ),
            target,
        ) == keyboard_result(state, target),
{
    let flags = keyboard_flags(target.keyboard, state.keyboard_pushed);
    lemma_mode_steps(state, target);
    lemma_complete_then_if(
        state,
        state.spec_mode_steps(target),
        keyboard_sent(state, target),
        BackendStep::Keyboard(target.keyboard, flags),
        target,
    );
    lemma_complete_keyboard(mode_result(state, target), target.keyboard, flags, target);
}

/// The bookkeeping once every step before the confirming flush succeeded.
#[verifier::spinoff_prover]
#[verifier::rlimit(40)]
proof fn lemma_before_flush(state: BackendState, target: TerminalState)
    ensures
        state.spec_complete_all(state.spec_steps_before_flush(target), target) == requested_result(
            state,
            target,
        ),
{
    let active = state.active;
    let confirmed = state.confirmed;
    let keyboard = push_if(
        state.spec_mode_steps(target),
        keyboard_sent(state, target),
        BackendStep::Keyboard(target.keyboard, keyboard_flags(target.keyboard, state.keyboard_pushed)),
    );
    let autowrap_sent = target.autowrap != active.autowrap || target.autowrap != confirmed.autowrap;
    let cursor_sent = target.cursor != active.cursor || target.cursor != confirmed.cursor;
    let autowrap = push_if(keyboard, autowrap_sent, BackendStep::Autowrap(target.autowrap));
    let title = push_if(autowrap, title_sent(state, target), BackendStep::Title);
    let cursor = push_if(title, cursor_sent, BackendStep::Cursor(target.cursor));
    let r6 = keyboard_result(state, target);
    let r7 = BackendState { active: TerminalState { autowrap: target.autowrap, ..r6.active }, ..r6 };
    let r8 = BackendState {
        active: TerminalState {
            title: if title_sent(state, target) {
                target.title
            } else {
                active.title
            },
            ..r7.active
        },
        ..r7
    };
    let r9 = BackendState { active: TerminalState { cursor: target.cursor, ..r8.active }, ..r8 };
    lemma_keyboard_step(state, target);
    lemma_request_step(state, keyboard, autowrap_sent, BackendStep::Autowrap(target.autowrap), target, r6, r7);
    lemma_request_step(state, autowrap, title_sent(state, target), BackendStep::Title, target, r7, r8);
    lemma_request_step(state, title, cursor_sent, BackendStep::Cursor(target.cursor), target, r8, r9);
    lemma_complete_then(
        state,
        cursor,
        BackendStep::SynchronizedUpdates(target.synchronized_updates),
        target,
    );
    lemma_complete_request(r9, BackendStep::SynchronizedUpdates(target.synchronized_updates), target);
}

/// Completing every planned step moves both the requested and the confirmed
/// state to the target, and leaves keyboard flags pushed exactly when the
/// enhanced protocol was switched on.
pub proof fn lemma_plan_reaches_target(state: BackendState, desired: TerminalState)
    ensures
        ({
            let target = state.spec_effective(desired);
            let after = state.spec_complete_all(state.spec_steps(target), target);
            &&& same_state(after.active, target)
            &&& same_state(after.confirmed, target)
            &&& after.support == state.support
            &&& after.original_raw_mode == state.original_raw_mode
            &&& after.keyboard_pushed == if keyboard_sent(state, target) {
                target.keyboard == KeyboardMode::Enhanced
            } else {
                state.keyboard_pushed
            }
        }),
{
    let target = state.spec_effective(desired);
    let before = state.spec_steps_before_flush(target);
    let requested = requested_result(state, target);
    let flushed = state.spec_complete_all(before.push(BackendStep::Flush), target);
    lemma_before_flush(state, target);
    lemma_complete_then(state, before, BackendStep::Flush, target);
    lemma_complete_flush(requested, target);
    lemma_complete_then_if(
        state,
        before.push(BackendStep::Flush),
        !target.raw_mode && state.active.raw_mode,
        BackendStep::DisableRawMode,
        target,
    );
    lemma_complete_raw_off(flushed, target);
}

/// When every step before the confirming flush succeeded but the flush
/// failed, planning the same target again sends each mode whose delivery was
/// never confirmed, and a keyboard step of that plan neither pushes nor pops
/// flags again.
pub proof fn lemma_failed_flush_resends(state: BackendState, desired: TerminalState)
    ensures
        ({
            let target = state.spec_effective(desired);
            let retry = state.spec_complete_all(state.spec_steps_before_flush(target), target);
            &&& retry.confirmed == state.confirmed
            &&& (target.screen != retry.active.screen || target.screen != retry.confirmed.screen)
                == (target.screen != state.confirmed.screen)
            &&& (target.mouse != retry.active.mouse || target.mouse != retry.confirmed.mouse) == (
            target.mouse != state.confirmed.mouse)
            &&& (target.focus_reporting != retry.active.focus_reporting || target.focus_reporting
                != retry.confirmed.focus_reporting) == (target.focus_reporting
                != state.confirmed.focus_reporting)
            &&& (target.bracketed_paste != retry.active.bracketed_paste || target.bracketed_paste
                != retry.confirmed.bracketed_paste) == (target.bracketed_paste
                != state.confirmed.bracketed_paste)
            &&& (target.autowrap != retry.active.autowrap || target.autowrap
                != retry.confirmed.autowrap) == (target.autowrap != state.confirmed.autowrap)
            &&& title_sent(retry, target) == !same_text(target.title, state.confirmed.title)
            &&& (target.cursor != retry.active.cursor || target.cursor != retry.confirmed.cursor)
                == (target.cursor != state.confirmed.cursor)
            &&& keyboard_sent(retry, target) ==> keyboard_flags(
                target.keyboard,
                retry.keyboard_pushed,
            ) == KeyboardFlags::Keep
        }),
{
    let target = state.spec_effective(desired);
    lemma_before_flush(state, target);
}

/// Restore steps change only whether keyboard flags are pushed: they are not
/// once a pop succeeded.
proof fn lemma_restore_all(state: BackendState, steps: Seq<RestoreStep>)
    ensures
        ({
            let after = state.spec_restore_all(steps);
            &&& after == (BackendState { keyboard_pushed: after.keyboard_pushed, ..state })
            &&& after.keyboard_pushed == (state.keyboard_pushed && !steps.contains(
                RestoreStep::PopKeyboard,
            ))
        }),
    decreases steps.len(),
{
    if steps.len() > 0 {
        lemma_restore_all(state.spec_restore_complete(steps[0]), steps.drop_first());
        assert(steps.contains(RestoreStep::PopKeyboard) == (steps[0] == RestoreStep::PopKeyboard
            || steps.drop_first().contains(RestoreStep::PopKeyboard))) by {
            if steps.contains(RestoreStep::PopKeyboard) && steps[0] != RestoreStep::PopKeyboard {
                let k = choose|k: int| 0 <= k < steps.len() && steps[k] == RestoreStep::PopKeyboard;
                assert(steps.drop_first()[k - 1] == RestoreStep::PopKeyboard);
            }
            if steps.drop_first().contains(RestoreStep::PopKeyboard) {
                let k = choose|k: int|
                    0 <= k < steps.drop_first().len() && steps.drop_first()[k] == RestoreStep::PopKeyboard;
                assert(steps[k + 1] == RestoreStep::PopKeyboard);
            }
            if steps[0] == RestoreStep::PopKeyboard {
                assert(steps.contains(steps[0]));
            }
        }
    }
}

/// A restore in which every step succeeds leaves the terminal as the backend
/// found it: the default state with the original raw mode, requested and
/// confirmed, and no keyboard flags pushed.
pub proof fn lemma_restore_resets(state: BackendState)
    ensures
        ({
            let after = state.spec_restore_all(state.spec_restore_steps()).spec_finish_restore(
                true,
                true,
            );
            &&& after.active == resting_state(state.original_raw_mode)
            &&& after.confirmed == resting_state(state.original_raw_mode)
            &&& !after.keyboard_pushed
            &&& after.support == state.support
        }),
{
    let steps = state.spec_restore_steps();
    lemma_restore_all(state, steps);
    if state.keyboard_pushed {
        assert(steps[0] == RestoreStep::PopKeyboard);
        assert(steps.contains(steps[0]));
    }
}

/// A restore whose output failed leaves no mode confirmed, so the next state
/// application sends every requested mode that differs from the default again;
/// the requested modes themselves are kept for a retry.
pub proof fn lemma_failed_restore_unconfirms(state: BackendState, raw_disabled: bool)
    ensures
        ({
            let after = state.spec_finish_restore(false, raw_disabled);
            &&& after.confirmed == resting_state(after.active.raw_mode)
            &&& after.active == TerminalState { raw_mode: after.active.raw_mode, ..state.active }
            &&& after.keyboard_pushed == state.keyboard_pushed
        }),
{
}


/// A step lies in a joined list exactly when it lies in one of the parts.
proof fn lemma_contains_join(first: Seq<RestoreStep>, second: Seq<RestoreStep>, step: RestoreStep)
    ensures
        (first + second).contains(step) <==> first.contains(step) || second.contains(step),
{
    let joined = first + second;
    if joined.contains(step) {
        let k = choose|k: int| 0 <= k < joined.len() && joined[k] == step;
        if k >= first.len() {
            assert(second[k - first.len()] == step);
        }
    }
    if first.contains(step) {
        let k = choose|k: int| 0 <= k < first.len() && first[k] == step;
        assert(joined[k] == step);
    }
    if second.contains(step) {
        let k = choose|k: int| 0 <= k < second.len() && second[k] == step;
        assert(joined[first.len() + k] == step);
    }
}

/// A conditional step is there exactly when its condition holds.
proof fn lemma_contains_if(condition: bool, step: RestoreStep, other: RestoreStep)
    ensures
        restore_if(condition, step).contains(other) <==> condition && step == other,
{
    if condition {
        assert(restore_if(condition, step)[0] == step);
    }
}

/// Appending a conditional step adds that step exactly when its condition holds.
proof fn lemma_contains_join_if(prefix: Seq<RestoreStep>, condition: bool, added: RestoreStep, step: RestoreStep)
    ensures
        (prefix + restore_if(condition, added)).contains(step) <==> prefix.contains(step) || (
        condition && added == step),
{
    lemma_contains_join(prefix, restore_if(condition, added), step);
    lemma_contains_if(condition, added, step);
}

/// Which steps a restore holds: each conditional step exactly when its
/// condition holds, and always the style reset and the flush.
#[verifier::spinoff_prover]
#[verifier::rlimit(40)]
proof fn lemma_restore_contains(state: BackendState, step: RestoreStep)
    ensures
        state.spec_restore_steps().contains(step) <==> {
            let active = state.active;
            let confirmed = state.confirmed;
            ||| state.keyboard_pushed && step == RestoreStep::PopKeyboard
            ||| (active.mouse == MouseMode::Capture || confirmed.mouse == MouseMode::Capture) && step
                == RestoreStep::DisableMouseCapture
            ||| (active.bracketed_paste || confirmed.bracketed_paste) && step
                == RestoreStep::DisableBracketedPaste
            ||| (active.focus_reporting || confirmed.focus_reporting) && step
                == RestoreStep::DisableFocusChange
            ||| (active.screen == ScreenMode::Alternate || confirmed.screen == ScreenMode::Alternate)
                && step == RestoreStep::LeaveAlternateScreen
            ||| (active.autowrap == AutowrapMode::Disabled || confirmed.autowrap
                == AutowrapMode::Disabled) && step == RestoreStep::EnableLineWrap
            ||| (active.title is Some || confirmed.title is Some) && step == RestoreStep::ClearTitle
            ||| step == RestoreStep::ResetStyle
            ||| step == RestoreStep::Flush
        },
{
    let active = state.active;
    let confirmed = state.confirmed;
    let c0 = state.keyboard_pushed;
    let c1 = active.mouse == MouseMode::Capture || confirmed.mouse == MouseMode::Capture;
    let c2 = active.bracketed_paste || confirmed.bracketed_paste;
    let c3 = active.focus_reporting || confirmed.focus_reporting;
    let c4 = active.screen == ScreenMode::Alternate || confirmed.screen == ScreenMode::Alternate;
    let c5 = active.autowrap == AutowrapMode::Disabled || confirmed.autowrap == AutowrapMode::Disabled;
    let c6 = active.title is Some || confirmed.title is Some;
    let q0 = restore_if(c0, RestoreStep::PopKeyboard);
    let q1 = q0 + restore_if(c1, RestoreStep::DisableMouseCapture);
    let q2 = q1 + restore_if(c2, RestoreStep::DisableBracketedPaste);
    let q3 = q2 + restore_if(c3, RestoreStep::DisableFocusChange);
    let q4 = q3 + restore_if(c4, RestoreStep::LeaveAlternateScreen);
    let q5 = q4 + restore_if(c5, RestoreStep::EnableLineWrap);
    let q6 = q5 + restore_if(c6, RestoreStep::ClearTitle);
    let steps = q6.push(RestoreStep::ResetStyle).push(RestoreStep::Flush);
    assert(state.spec_restore_steps() == steps);
    lemma_contains_if(c0, RestoreStep::PopKeyboard, step);
    lemma_contains_join_if(q0, c1, RestoreStep::DisableMouseCapture, step);
    lemma_contains_join_if(q1, c2, RestoreStep::DisableBracketedPaste, step);
    lemma_contains_join_if(q2, c3, RestoreStep::DisableFocusChange, step);
    lemma_contains_join_if(q3, c4, RestoreStep::LeaveAlternateScreen, step);
    lemma_contains_join_if(q4, c5, RestoreStep::EnableLineWrap, step);
    lemma_contains_join_if(q5, c6, RestoreStep::ClearTitle, step);
    lemma_contains_join(q6, seq![RestoreStep::ResetStyle], step);
    assert(q6.push(RestoreStep::ResetStyle) == q6 + seq![RestoreStep::ResetStyle]);
    lemma_contains_join(q6.push(RestoreStep::ResetStyle), seq![RestoreStep::Flush], step);
    assert(steps == q6.push(RestoreStep::ResetStyle) + seq![RestoreStep::Flush]);
    lemma_contains_if(true, RestoreStep::ResetStyle, step);
    lemma_contains_if(true, RestoreStep::Flush, step);
    assert(restore_if(true, RestoreStep::ResetStyle) == seq![RestoreStep::ResetStyle]);
    assert(restore_if(true, RestoreStep::Flush) == seq![RestoreStep::Flush]);
}

/// Restoring undoes exactly the modes the backend turned on, requested or
/// confirmed: the keyboard flags it pushed, mouse capture, bracketed paste,
/// focus reporting, the alternate screen, disabled line wrap and a title;
/// every restore then resets the style and ends with a flush.
#[verifier::spinoff_prover]
#[verifier::rlimit(40)]
pub proof fn lemma_restore_undoes_each_mode_turned_on(state: BackendState)
    ensures
        ({
            let steps = state.spec_restore_steps();
            let active = state.active;
            let confirmed = state.confirmed;
            &&& steps.contains(RestoreStep::PopKeyboard) <==> state.keyboard_pushed
            &&& steps.contains(RestoreStep::DisableMouseCapture) <==> (active.mouse
                == MouseMode::Capture || confirmed.mouse == MouseMode::Capture)
            &&& steps.contains(RestoreStep::DisableBracketedPaste) <==> (active.bracketed_paste
                || confirmed.bracketed_paste)
            &&& steps.contains(RestoreStep::DisableFocusChange) <==> (active.focus_reporting
                || confirmed.focus_reporting)
            &&& steps.contains(RestoreStep::LeaveAlternateScreen) <==> (active.screen
                == ScreenMode::Alternate || confirmed.screen == ScreenMode::Alternate)
            &&& steps.contains(RestoreStep::EnableLineWrap) <==> (active.autowrap
                == AutowrapMode::Disabled || confirmed.autowrap == AutowrapMode::Disabled)
            &&& steps.contains(RestoreStep::ClearTitle) <==> (active.title is Some
                || confirmed.title is Some)
            &&& steps.len() >= 2
            &&& steps[steps.len() - 2] == RestoreStep::ResetStyle
            &&& steps[steps.len() - 1] == RestoreStep::Flush
        }),
{
    lemma_restore_contains(state, RestoreStep::PopKeyboard);
    lemma_restore_contains(state, RestoreStep::DisableMouseCapture);
    lemma_restore_contains(state, RestoreStep::DisableBracketedPaste);
    lemma_restore_contains(state, RestoreStep::DisableFocusChange);
    lemma_restore_contains(state, RestoreStep::LeaveAlternateScreen);
    lemma_restore_contains(state, RestoreStep::EnableLineWrap);
    lemma_restore_contains(state, RestoreStep::ClearTitle);
    lemma_restore_ends(state);
}

/// Every restore ends by resetting the style and flushing.
proof fn lemma_restore_ends(state: BackendState)
    ensures
        state.spec_restore_steps().len() >= 2,
        state.spec_restore_steps()[state.spec_restore_steps().len() - 2] == RestoreStep::ResetStyle,
        state.spec_restore_steps()[state.spec_restore_steps().len() - 1] == RestoreStep::Flush,
{
}

} // verus!
