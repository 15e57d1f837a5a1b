//! The decisions of the live conversion line: from whether the conversion
//! is showing, whether something is being composed and whether the line
//! holds committed text, what a key does. The terminal loop performs the
//! action and keeps the line.

use vstd::prelude::*;

verus! {

/// A key of the live conversion line.
#[derive(PartialEq, Eq, Structural, Clone, Copy, Debug)]
pub enum LiveKey {
    /// Ctrl+C.
    Quit,
    /// Space, with or without Shift.
    Space { shift: bool },
    /// A character typed without Ctrl.
    Char(char),
    /// Enter.
    Enter,
    /// Escape.
    Esc,
    /// Backspace, with or without Ctrl.
    Backspace { ctrl: bool },
    /// Any other key.
    Other,
}

/// What the loop does for a key.
#[derive(PartialEq, Eq, Structural, Clone, Copy, Debug)]
pub enum LiveAction {
    /// Nothing but the display changes.
    Nothing,
    /// Leave the loop (what is composed is dropped).
    Quit,
    /// Add a space to the committed text.
    PushSpace,
    /// Select the previous candidate.
    PrevCandidate,
    /// Select the next candidate.
    NextCandidate,
    /// Feed the character to the romaji input; the conversion then shows
    /// exactly when `live_tick(false, composing, auto)` says so.
    InputRomaji(char),
    /// Commit the conversion shown.
    CommitConversion,
    /// Commit the hiragana as typed.
    CommitHiragana,
    /// Print the committed line and start a new one.
    FinishLine,
    /// Drop what is composed.
    Clear,
    /// Delete the last character of what is composed.
    Backspace,
    /// Delete the last committed character.
    PopCommitted,
}

/// What a key does, and whether the conversion shows afterwards:
/// Space shows the conversion and then moves to the next candidate (the
/// previous one with Shift), or adds a space when nothing is composed;
/// Enter commits the conversion (or the hiragana when it is not showing),
/// or finishes a line of committed text; Escape first hides the
/// conversion, then drops what is composed, then quits; Backspace deletes
/// in the composition (all of it with Ctrl) or in the committed text.
pub open spec fn live_step_spec(showing: bool, composing: bool, has_committed: bool, key: LiveKey) -> (bool, LiveAction) {
    match key {
        LiveKey::Quit => (showing, LiveAction::Quit),
        LiveKey::Space { shift } => if !composing {
            (showing, LiveAction::PushSpace)
        } else if !showing {
            (true, LiveAction::Nothing)
        } else if shift {
            (true, LiveAction::PrevCandidate)
        } else {
            (true, LiveAction::NextCandidate)
        },
        LiveKey::Char(c) => (false, LiveAction::InputRomaji(c)),
        LiveKey::Enter => if composing {
            (false, if showing { LiveAction::CommitConversion } else { LiveAction::CommitHiragana })
        } else if has_committed {
            (showing, LiveAction::FinishLine)
        } else {
            (showing, LiveAction::Nothing)
        },
        LiveKey::Esc => if showing {
            (false, LiveAction::Nothing)
        } else if composing {
            (showing, LiveAction::Clear)
        } else {
            (showing, LiveAction::Quit)
        },
        LiveKey::Backspace { ctrl } => if ctrl {
            (showing, LiveAction::Clear)
        } else if composing {
            (false, LiveAction::Backspace)
        } else {
            (showing, LiveAction::PopCommitted)
        },
        LiveKey::Other => (showing, LiveAction::Nothing),
    }
}

/// What a key does on the live line, and whether the conversion shows
/// afterwards, as `live_step_spec` says.
pub fn live_step(showing: bool, composing: bool, has_committed: bool, key: LiveKey) -> (r: (bool, LiveAction))
    ensures
        r == live_step_spec(showing, composing, has_committed, key),
{
    match key {
        LiveKey::Quit => (showing, LiveAction::Quit),
        LiveKey::Space { shift } => {
            if !composing {
                (showing, LiveAction::PushSpace)
            } else if !showing {
                (true, LiveAction::Nothing)
            } else if shift {
                (true, LiveAction::PrevCandidate)
            } else {
                (true, LiveAction::NextCandidate)
            }
        },
        LiveKey::Char(c) => (false, LiveAction::InputRomaji(c)),
        LiveKey::Enter => {
            if composing {
                (false, if showing { LiveAction::CommitConversion } else { LiveAction::CommitHiragana })
            } else if has_committed {
                (showing, LiveAction::FinishLine)
            } else {
                (showing, LiveAction::Nothing)
            }
        },
        LiveKey::Esc => {
            if showing {
                (false, LiveAction::Nothing)
            } else if composing {
                (showing, LiveAction::Clear)
            } else {
                (showing, LiveAction::Quit)
            }
        },
        LiveKey::Backspace { ctrl } => {
            if ctrl {
                (showing, LiveAction::Clear)
            } else if composing {
                (false, LiveAction::Backspace)
            } else {
                (showing, LiveAction::PopCommitted)
            }
        },
        LiveKey::Other => (showing, LiveAction::Nothing),
    }
}

/// Whether the conversion shows after a pause in typing: it stays shown,
/// or it comes up when something is composed and automatic conversion
/// fires.
pub fn live_tick(showing: bool, composing: bool, auto: bool) -> (r: bool)
    ensures
        r == (showing || (composing && auto)),
{
    showing || (composing && auto)
}

/// Space on a composition shows the conversion, and Escape then hides it
/// again without touching the composition.
pub proof fn law_space_then_esc(has_committed: bool, shift: bool)
    ensures
        live_step_spec(false, true, has_committed, LiveKey::Space { shift }) == (true, LiveAction::Nothing),
        live_step_spec(true, true, has_committed, LiveKey::Esc) == (false, LiveAction::Nothing),
{
}

} // verus!
