use common::live::{live_step, live_tick, LiveAction, LiveKey};

#[test]
fn space_shows_then_cycles() {
    assert_eq!(live_step(false, true, false, LiveKey::Space { shift: false }), (true, LiveAction::Nothing));
    assert_eq!(live_step(true, true, false, LiveKey::Space { shift: false }), (true, LiveAction::NextCandidate));
    assert_eq!(live_step(true, true, false, LiveKey::Space { shift: true }), (true, LiveAction::PrevCandidate));
    assert_eq!(live_step(false, false, true, LiveKey::Space { shift: false }), (false, LiveAction::PushSpace));
}

#[test]
fn enter_commits_conversion_or_hiragana() {
    assert_eq!(live_step(true, true, false, LiveKey::Enter), (false, LiveAction::CommitConversion));
    assert_eq!(live_step(false, true, false, LiveKey::Enter), (false, LiveAction::CommitHiragana));
    assert_eq!(live_step(false, false, true, LiveKey::Enter), (false, LiveAction::FinishLine));
    assert_eq!(live_step(false, false, false, LiveKey::Enter), (false, LiveAction::Nothing));
}

#[test]
fn escape_hides_then_clears_then_quits() {
    assert_eq!(live_step(true, true, false, LiveKey::Esc), (false, LiveAction::Nothing));
    assert_eq!(live_step(false, true, false, LiveKey::Esc), (false, LiveAction::Clear));
    assert_eq!(live_step(false, false, false, LiveKey::Esc), (false, LiveAction::Quit));
}

#[test]
fn backspace_and_typing() {
    assert_eq!(live_step(true, true, false, LiveKey::Backspace { ctrl: false }), (false, LiveAction::Backspace));
    assert_eq!(live_step(true, true, false, LiveKey::Backspace { ctrl: true }), (true, LiveAction::Clear));
    assert_eq!(live_step(false, false, true, LiveKey::Backspace { ctrl: false }), (false, LiveAction::PopCommitted));
    assert_eq!(live_step(true, true, false, LiveKey::Char('k')), (false, LiveAction::InputRomaji('k')));
    assert_eq!(live_step(true, true, false, LiveKey::Quit), (true, LiveAction::Quit));
    assert_eq!(live_step(true, true, false, LiveKey::Other), (true, LiveAction::Nothing));
}

#[test]
fn idle_tick_shows_when_auto_convert_fires() {
    assert!(live_tick(false, true, true));
    assert!(!live_tick(false, true, false));
    assert!(!live_tick(false, false, true));
    assert!(live_tick(true, false, false));
}
