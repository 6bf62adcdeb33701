//! Desired terminal-wide state and the backend's bookkeeping of what it applied.

use vstd::prelude::*;

use crate::geometry::{CursorState, Point};
use crate::platform::string_push;

verus! {

/// Terminal screen-buffer selection.
#[derive(Clone, Copy, Debug, Default, Eq, Hash, PartialEq, Structural)]
pub enum ScreenMode {
    /// Use the normal screen without clearing existing scrollback.
    #[default]
    Main,
    /// Use the alternate screen for a fullscreen application that owns its viewport.
    Alternate,
}

/// Mouse reporting state.
#[derive(Clone, Copy, Debug, Default, Eq, Hash, PartialEq, Structural)]
pub enum MouseMode {
    /// Do not request mouse events.
    #[default]
    Disabled,
    /// Request button, drag, movement, and scroll events.
    Capture,
}

/// Keyboard protocol state.
#[derive(Clone, Copy, Debug, Default, Eq, Hash, PartialEq, Structural)]
pub enum KeyboardMode {
    /// Use legacy terminal key sequences.
    #[default]
    Legacy,
    /// Request progressive keyboard enhancement.
    Enhanced,
}

/// Automatic line-wrap state.
#[derive(Clone, Copy, Debug, Default, Eq, Hash, PartialEq, Structural)]
pub enum AutowrapMode {
    /// Leave the terminal's existing setting unchanged.
    #[default]
    Preserve,
    /// Enable automatic line wrapping.
    Enabled,
    /// Disable automatic line wrapping.
    Disabled,
}

/// Result of writing one frame patch.
#[derive(Clone, Copy, Debug, Eq, PartialEq, Structural)]
pub enum WriteOutcome {
    /// Every byte of the patch was written.
    Applied,
    /// No byte was written.
    Deferred,
    /// Output may be partial; the physical terminal state is unknown.
    StateUnknown,
}

/// Complete desired terminal-wide state.
#[derive(Clone, Debug, Eq, PartialEq)]
pub struct TerminalState {
    /// Whether input should use raw mode.
    pub raw_mode: bool,
    /// Main or alternate screen.
    pub screen: ScreenMode,
    /// Desired cursor state.
    pub cursor: CursorState,
    /// Mouse reporting state.
    pub mouse: MouseMode,
    /// Keyboard protocol state.
    pub keyboard: KeyboardMode,
    /// Whether bracketed paste is enabled.
    pub bracketed_paste: bool,
    /// Whether focus changes are reported.
    pub focus_reporting: bool,
    /// Whether frame writes use synchronized updates when supported.
    pub synchronized_updates: bool,
    /// Optional terminal title. Backends must discard embedded control characters.
    pub title: Option<String>,
    /// Automatic line-wrap state.
    pub autowrap: AutowrapMode,
}

impl TerminalState {
    /// Creates a conservative fullscreen application state.
    pub fn fullscreen() -> (state: Self)
        ensures
            state.raw_mode,
            state.screen == ScreenMode::Alternate,
            state.cursor == CursorState::spec_hidden(),
            state.mouse == MouseMode::Disabled,
            state.keyboard == KeyboardMode::Legacy,
            state.bracketed_paste,
            state.focus_reporting,
            state.synchronized_updates,
            state.title is None,
            state.autowrap == AutowrapMode::Disabled,
    {
        TerminalState {
            raw_mode: true,
            screen: ScreenMode::Alternate,
            cursor: CursorState::hidden(),
            mouse: MouseMode::Disabled,
            keyboard: KeyboardMode::Legacy,
            bracketed_paste: true,
            focus_reporting: true,
            synchronized_updates: true,
            title: None,
            autowrap: AutowrapMode::Disabled,
        }
    }
}

impl Default for TerminalState {
    fn default() -> (state: Self)
        ensures
            !state.raw_mode,
            state.screen == ScreenMode::Main,
            state.cursor == CursorState::spec_visible(Point::spec_origin()),
            state.mouse == MouseMode::Disabled,
            state.keyboard == KeyboardMode::Legacy,
            !state.bracketed_paste,
            !state.focus_reporting,
            !state.synchronized_updates,
            state.title is None,
            state.autowrap == AutowrapMode::Preserve,
    {
        TerminalState {
            raw_mode: false,
            screen: ScreenMode::Main,
            cursor: CursorState::visible(Point::origin()),
            mouse: MouseMode::Disabled,
            keyboard: KeyboardMode::Legacy,
            bracketed_paste: false,
            focus_reporting: false,
            synchronized_updates: false,
            title: None,
            autowrap: AutowrapMode::Preserve,
        }
    }
}

/// Whether `c` is a control character: general category Cc, that is
/// U+0000..=U+001F and U+007F..=U+009F.
pub open spec fn is_control_char(c: char) -> bool {
    (c as u32) <= 0x1f || (0x7f <= (c as u32) && (c as u32) <= 0x9f)
}

/// Returns whether `c` is a control character.
pub fn is_control(c: char) -> (control: bool)
    ensures
        control == is_control_char(c),
{
    let code = c as u32;
    code <= 0x1f || (0x7f <= code && code <= 0x9f)
}

/// `text` without its control characters, in order.
pub open spec fn without_controls(text: Seq<char>) -> Seq<char> {
    text.filter(|c: char| !is_control_char(c))
}

/// Removes every control character from a title so that it cannot end or
/// extend the escape sequence that carries it.
pub fn sanitized_title(title: &str) -> (sanitized: String)
    ensures
        sanitized@ == without_controls(title@),
        forall|i: int| 0 <= i < sanitized@.len() ==> !is_control_char(#[trigger] sanitized@[i]),
{
    let mut sanitized = String::new();
    let length = title.unicode_len();
    let mut index: usize = 0;
    while index < length
        invariant
            length == title@.len(),
            0 <= index <= length,
            sanitized@ == without_controls(title@.take(index as int)),
        decreases length - index,
    {
        let c = title.get_char(index);
        proof {
            assert(title@.take(index as int + 1).drop_last() =~= title@.take(index as int));
            reveal_with_fuel(Seq::filter, 1);
        }
        if !is_control(c) {
            string_push(&mut sanitized, c);
        }
        index += 1;
    }
    proof {
        assert(title@.take(length as int) =~= title@);
        assert forall|i: int| 0 <= i < sanitized@.len() implies !is_control_char(
            #[trigger] sanitized@[i],
        ) by {
            title@.lemma_filter_pred(|c: char| !is_control_char(c), i);
        }
    }
    sanitized
}


/// Sanitizing keeps every character that is not a control character, in
/// order: text without control characters comes back unchanged, and
/// sanitizing twice is sanitizing once.
pub proof fn lemma_sanitizing_keeps_plain_text(text: Seq<char>)
    ensures
        (forall|i: int| 0 <= i < text.len() ==> !is_control_char(#[trigger] text[i]))
            ==> without_controls(text) == text,
        without_controls(without_controls(text)) == without_controls(text),
        without_controls(text).len() <= text.len(),
    decreases text.len(),
{
    reveal(Seq::filter);
    if text.len() > 0 {
        let shorter = text.drop_last();
        assert forall|i: int| 0 <= i < shorter.len() implies shorter[i] == text[i] by {}
        lemma_sanitizing_keeps_plain_text(shorter);
        let kept = without_controls(shorter);
        if !is_control_char(text.last()) {
            assert(without_controls(text) == kept.push(text.last()));
            assert(kept.push(text.last()).drop_last() =~= kept);
            assert(without_controls(kept.push(text.last())) == without_controls(kept).push(text.last()));
            if forall|i: int| 0 <= i < text.len() ==> !is_control_char(#[trigger] text[i]) {
                assert(kept == shorter);
                assert(shorter.push(text.last()) =~= text);
            }
        } else {
            assert(without_controls(text) == kept);
        }
    }
}

} // verus!
