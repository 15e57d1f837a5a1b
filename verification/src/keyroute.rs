//! What a key press does in the keyboard front end: the decision of the
//! keyboard hook, from the key and the state it sees, to the route it takes.
//! The front end performs the route (sends keys, updates the session,
//! shows or hides the popups).

use vstd::prelude::*;
use crate::keys::{is_commit_char, is_ime_toggle_vk, candidate_page_start, vk_to_char, vk_to_ascii, typing_char,
    ascii_of_key};

verus! {

pub const VK_BACK: u32 = 0x08;
pub const VK_TAB: u32 = 0x09;
pub const VK_RETURN: u32 = 0x0D;
pub const VK_ESCAPE: u32 = 0x1B;
pub const VK_SPACE: u32 = 0x20;
pub const VK_LEFT: u32 = 0x25;
pub const VK_UP: u32 = 0x26;
pub const VK_RIGHT: u32 = 0x27;
pub const VK_DOWN: u32 = 0x28;
pub const VK_DELETE: u32 = 0x2E;

/// Two presses of the same arrow within this many milliseconds jump to the
/// end of the line.
pub const ARROW_DOUBLE_TAP_MS: u32 = 250;

/// A key press and what the hook knows when it comes.
#[derive(Clone, Copy)]
pub struct KeyInput {
    pub vk: u32,
    pub scan: u32,
    pub shift: bool,
    pub ctrl: bool,
    pub alt: bool,
    /// Japanese input is on (otherwise keys go to command mode or through).
    pub our_active: bool,
    /// The focused window is a terminal.
    pub terminal_focused: bool,
    /// The candidate or prediction popup is shown.
    pub popup_visible: bool,
    /// Input is being composed.
    pub composing: bool,
    /// Number of conversion candidates listed (0 when none).
    pub candidate_count: usize,
    /// Selected conversion candidate.
    pub candidate_index: usize,
    /// Number of predictions listed.
    pub prediction_count: usize,
    /// Selected prediction.
    pub prediction_index: usize,
    /// This is the second press of the same arrow within the double-tap time.
    pub double_arrow: bool,
}

/// The route a key press takes.
#[derive(PartialEq, Eq, Structural, Clone, Copy, Debug)]
pub enum KeyRoute {
    /// Hand the key on unchanged.
    PassThrough,
    /// Open the word registration window (Ctrl+Alt+A in Japanese input).
    OpenWordSettings,
    /// Open the command and alias settings (Ctrl+Alt+A otherwise).
    OpenCommandSettings,
    /// Switch Japanese input on or off.
    ToggleActive,
    /// Switch the whole live conversion on or off.
    ToggleEnabled,
    /// Stop following the command line, and hand the key on.
    ResetCommandLine,
    /// Let command mode handle the key.
    CommandMode,
    /// Forget a command line left from a terminal, and hand the key on.
    ClearCommandLine,
    /// Pick candidate `index` and commit.
    PickCandidate(usize),
    /// Forget the learning of the selected candidate.
    ResetCandidateLearning,
    /// Forget the learning of the selected prediction.
    ResetPredictionLearning,
    /// Commit prediction `index`.
    PickPrediction(usize),
    /// Commit what is composed, then hand the key on.
    CommitThenPass,
    /// Type a character: commit the selected candidate first when asked,
    /// and commit after it when it is punctuation.
    TypeChar { ch: char, commit_first: bool, commit_after: bool },
    /// Delete backwards in the composition.
    Backspace,
    /// Move the prediction cursor to `index`.
    MovePrediction(usize),
    /// Select the next candidate, or the previous one.
    Cycle { backwards: bool },
    /// Commit, then move the cursor (to the line end on a double press).
    Arrow { left: bool, double: bool },
    /// Commit the selected prediction.
    CommitPrediction(usize),
    /// Commit.
    Commit,
    /// Turn the last converted segment back to kana, or cancel.
    Revert,
}

/// The prediction cursor after ↓ (or ↑), wrapping around.
pub open spec fn moved_cursor(index: nat, count: nat, down: bool) -> nat
    recommends
        count > 0,
{
    let last = (count - 1) as nat;
    if down {
        if index >= last {
            0
        } else {
            index + 1
        }
    } else if index == 0 {
        last
    } else {
        (index - 1) as nat
    }
}

/// A digit key 1 to 9 without shift: its position on the page.
pub open spec fn digit_of(k: KeyInput) -> Option<nat> {
    if 0x31 <= k.vk <= 0x39 && !k.shift {
        Some((k.vk - 0x31) as nat)
    } else {
        None
    }
}

/// The route of a key press while Japanese input is on and the modifiers
/// are up, in the order the hook tries them.
pub open spec fn composing_route(k: KeyInput) -> KeyRoute {
    let cands = k.popup_visible && k.candidate_count > 0;
    let preds = k.popup_visible && k.candidate_count == 0 && k.prediction_count > 0;
    let cand_pick = match digit_of(k) {
        Some(d) => if cands && (k.candidate_index / 9) * 9 + d < k.candidate_count {
            Some(((k.candidate_index / 9) * 9 + d) as usize)
        } else {
            None
        },
        None => None,
    };
    let pred_pick = match digit_of(k) {
        Some(d) => if preds && (k.prediction_index / 9) * 9 + d < k.prediction_count {
            Some(((k.prediction_index / 9) * 9 + d) as usize)
        } else {
            None
        },
        None => None,
    };
    if cand_pick is Some {
        KeyRoute::PickCandidate(cand_pick.unwrap())
    } else if k.vk == VK_DELETE && cands {
        KeyRoute::ResetCandidateLearning
    } else if k.vk == VK_DELETE && preds {
        KeyRoute::ResetPredictionLearning
    } else if pred_pick is Some {
        KeyRoute::PickPrediction(pred_pick.unwrap())
    } else if 0x41 <= k.vk <= 0x5A && k.shift {
        KeyRoute::CommitThenPass
    } else if typing_char(k.vk, k.shift) is Some {
        let ch = typing_char(k.vk, k.shift).unwrap();
        KeyRoute::TypeChar {
            ch,
            commit_first: cands,
            commit_after: ch == ',' || ch == '.' || ch == '?' || ch == '!',
        }
    } else if k.composing && ascii_of_key(k.vk, k.shift) is Some {
        KeyRoute::CommitThenPass
    } else if k.vk == VK_BACK && k.composing {
        KeyRoute::Backspace
    } else if k.vk == VK_SPACE && k.composing {
        KeyRoute::CommitThenPass
    } else if (k.vk == VK_DOWN || k.vk == VK_UP) && k.composing && preds {
        KeyRoute::MovePrediction(
            moved_cursor(k.prediction_index as nat, k.prediction_count as nat, k.vk == VK_DOWN) as usize,
        )
    } else if (k.vk == VK_TAB || k.vk == VK_DOWN || k.vk == VK_UP) && k.composing {
        KeyRoute::Cycle { backwards: k.vk == VK_UP || k.shift }
    } else if k.vk == VK_LEFT || k.vk == VK_RIGHT {
        KeyRoute::Arrow { left: k.vk == VK_LEFT, double: k.double_arrow }
    } else if k.vk == VK_RETURN && k.composing && preds {
        KeyRoute::CommitPrediction(k.prediction_index)
    } else if k.vk == VK_RETURN && k.composing {
        KeyRoute::Commit
    } else if k.vk == VK_ESCAPE && k.composing {
        KeyRoute::Revert
    } else {
        KeyRoute::PassThrough
    }
}

/// The route of a key press, in the order the hook tries them: Ctrl+Alt+A
/// opens a settings window, the mode keys and Ctrl+Space switch, keys go to
/// command mode (or through) while Japanese input is off, keys with Ctrl or
/// Alt go through, and the rest is `composing_route`.
pub open spec fn key_route(k: KeyInput) -> KeyRoute {
    if k.ctrl && k.alt && k.vk == 0x41 {
        if k.our_active {
            KeyRoute::OpenWordSettings
        } else {
            KeyRoute::OpenCommandSettings
        }
    } else if k.vk == 0x19 || k.vk == 0xF3 || k.vk == 0xF4 {
        KeyRoute::ToggleActive
    } else if k.ctrl && k.vk == VK_SPACE {
        KeyRoute::ToggleEnabled
    } else if !k.our_active {
        if k.terminal_focused {
            if k.ctrl || k.alt {
                KeyRoute::ResetCommandLine
            } else {
                KeyRoute::CommandMode
            }
        } else {
            KeyRoute::ClearCommandLine
        }
    } else if k.ctrl || k.alt {
        KeyRoute::PassThrough
    } else {
        composing_route(k)
    }
}

/// The cursor of the prediction list after ↓ (or ↑), as `moved_cursor` says.
pub fn move_prediction_cursor(index: usize, count: usize, down: bool) -> (r: usize)
    requires
        count > 0,
    ensures
        r as nat == moved_cursor(index as nat, count as nat, down),
{
    let last = count - 1;
    if down {
        if index >= last {
            0
        } else {
            index + 1
        }
    } else if index == 0 {
        last
    } else {
        index - 1
    }
}

/// Whether an arrow press at `now` (milliseconds, wrapping) follows a press
/// of the same arrow at `last_tick` within the double-tap time.
pub fn is_double_tap(last_vk: u32, last_tick: u32, vk: u32, now: u32) -> (r: bool)
    ensures
        r == (last_vk == vk && (if now >= last_tick {
            now - last_tick
        } else {
            now + 0x1_0000_0000 - last_tick
        }) <= ARROW_DOUBLE_TAP_MS),
{
    last_vk == vk && now.wrapping_sub(last_tick) <= ARROW_DOUBLE_TAP_MS
}

fn picked(selected: usize, digit: u32, count: usize) -> (r: Option<usize>)
    requires
        digit <= 8,
    ensures
        match r {
            Some(i) => i == (selected / 9) * 9 + digit && i < count,
            None => (selected / 9) * 9 + digit >= count,
        },
{
    let start = candidate_page_start(selected);
    if (digit as usize) < count && start < count - digit as usize {
        Some(start + digit as usize)
    } else {
        None
    }
}

/// The route of a key press, as `key_route` says.
pub fn route_key(k: KeyInput) -> (r: KeyRoute)
    ensures
        r == key_route(k),
{
    if k.ctrl && k.alt && k.vk == 0x41 {
        return if k.our_active {
            KeyRoute::OpenWordSettings
        } else {
            KeyRoute::OpenCommandSettings
        };
    }
    if is_ime_toggle_vk(k.vk) {
        return KeyRoute::ToggleActive;
    }
    if k.ctrl && k.vk == VK_SPACE {
        return KeyRoute::ToggleEnabled;
    }
    if !k.our_active {
        return if k.terminal_focused {
            if k.ctrl || k.alt {
                KeyRoute::ResetCommandLine
            } else {
                KeyRoute::CommandMode
            }
        } else {
            KeyRoute::ClearCommandLine
        };
    }
    if k.ctrl || k.alt {
        return KeyRoute::PassThrough;
    }
    let cands = k.popup_visible && k.candidate_count > 0;
    let preds = k.popup_visible && k.candidate_count == 0 && k.prediction_count > 0;
    let digit = 0x31 <= k.vk && k.vk <= 0x39 && !k.shift;
    if digit && cands {
        if let Some(i) = picked(k.candidate_index, k.vk - 0x31, k.candidate_count) {
            return KeyRoute::PickCandidate(i);
        }
    }
    if k.vk == VK_DELETE && cands {
        return KeyRoute::ResetCandidateLearning;
    }
    if k.vk == VK_DELETE && preds {
        return KeyRoute::ResetPredictionLearning;
    }
    if digit && preds {
        if let Some(i) = picked(k.prediction_index, k.vk - 0x31, k.prediction_count) {
            return KeyRoute::PickPrediction(i);
        }
    }
    if 0x41 <= k.vk && k.vk <= 0x5A && k.shift {
        return KeyRoute::CommitThenPass;
    }
    if let Some(ch) = vk_to_char(k.vk, k.scan, k.shift) {
        return KeyRoute::TypeChar { ch, commit_first: cands, commit_after: is_commit_char(ch) };
    }
    if k.composing && vk_to_ascii(k.vk, k.shift).is_some() {
        return KeyRoute::CommitThenPass;
    }
    if k.vk == VK_BACK && k.composing {
        return KeyRoute::Backspace;
    }
    if k.vk == VK_SPACE && k.composing {
        return KeyRoute::CommitThenPass;
    }
    if (k.vk == VK_DOWN || k.vk == VK_UP) && k.composing && preds {
        return KeyRoute::MovePrediction(move_prediction_cursor(k.prediction_index, k.prediction_count, k.vk == VK_DOWN));
    }
    if (k.vk == VK_TAB || k.vk == VK_DOWN || k.vk == VK_UP) && k.composing {
        return KeyRoute::Cycle { backwards: k.vk == VK_UP || k.shift };
    }
    if k.vk == VK_LEFT || k.vk == VK_RIGHT {
        return KeyRoute::Arrow { left: k.vk == VK_LEFT, double: k.double_arrow };
    }
    if k.vk == VK_RETURN && k.composing && preds {
        return KeyRoute::CommitPrediction(k.prediction_index);
    }
    if k.vk == VK_RETURN && k.composing {
        return KeyRoute::Commit;
    }
    if k.vk == VK_ESCAPE && k.composing {
        return KeyRoute::Revert;
    }
    KeyRoute::PassThrough
}

/// The flag of a low-level key event that the system sets on keys sent by
/// a program.
pub const LLKHF_INJECTED: u32 = 0x10;

/// Whether the keyboard hook hands an event on without looking at it: the
/// hook code says so (negative), the key was sent by a program (this one
/// among them), conversion is switched off, or the front end's own window
/// has the focus.
pub fn hook_passes_through(code: i32, flags: u32, enabled: bool, own_window: bool) -> (r: bool)
    ensures
        r == (code < 0 || flags & LLKHF_INJECTED != 0 || !enabled || own_window),
{
    code < 0 || flags & LLKHF_INJECTED != 0 || !enabled || own_window
}

} // verus!
