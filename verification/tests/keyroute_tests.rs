use common::keyroute::hook_passes_through;
use common::keyroute::{
    is_double_tap, move_prediction_cursor, route_key, KeyInput, KeyRoute, VK_BACK, VK_DELETE, VK_DOWN, VK_ESCAPE,
    VK_LEFT, VK_RETURN, VK_SPACE, VK_TAB, VK_UP,
};

fn key(vk: u32) -> KeyInput {
    KeyInput {
        vk,
        scan: 0,
        shift: false,
        ctrl: false,
        alt: false,
        our_active: true,
        terminal_focused: false,
        popup_visible: false,
        composing: true,
        candidate_count: 0,
        candidate_index: 0,
        prediction_count: 0,
        prediction_index: 0,
        double_arrow: false,
    }
}

#[test]
fn settings_and_mode_keys() {
    let mut k = key(0x41);
    k.ctrl = true;
    k.alt = true;
    assert_eq!(route_key(k), KeyRoute::OpenWordSettings);
    k.our_active = false;
    assert_eq!(route_key(k), KeyRoute::OpenCommandSettings);
    assert_eq!(route_key(key(0xF3)), KeyRoute::ToggleActive);
    let mut k = key(VK_SPACE);
    k.ctrl = true;
    assert_eq!(route_key(k), KeyRoute::ToggleEnabled);
}

#[test]
fn inactive_keys_go_to_command_mode_in_terminals() {
    let mut k = key(0x41);
    k.our_active = false;
    assert_eq!(route_key(k), KeyRoute::ClearCommandLine);
    k.terminal_focused = true;
    assert_eq!(route_key(k), KeyRoute::CommandMode);
    k.ctrl = true;
    assert_eq!(route_key(k), KeyRoute::ResetCommandLine);
}

#[test]
fn typing_and_punctuation() {
    assert_eq!(route_key(key(0x4B)), KeyRoute::TypeChar { ch: 'k', commit_first: false, commit_after: false });
    let mut k = key(0x4B);
    k.shift = true;
    assert_eq!(route_key(k), KeyRoute::CommitThenPass);
    let mut k = key(0x4B);
    k.alt = true;
    assert_eq!(route_key(k), KeyRoute::PassThrough);
}

#[test]
fn candidate_list_keys() {
    let mut k = key(0x32);
    k.popup_visible = true;
    k.candidate_count = 12;
    k.candidate_index = 10;
    assert_eq!(route_key(k), KeyRoute::PickCandidate(10));
    k.vk = 0x35;
    assert_eq!(route_key(k), KeyRoute::CommitThenPass);
    k.vk = VK_DELETE;
    assert_eq!(route_key(k), KeyRoute::ResetCandidateLearning);
    k.vk = VK_TAB;
    assert_eq!(route_key(k), KeyRoute::Cycle { backwards: false });
    k.vk = VK_UP;
    assert_eq!(route_key(k), KeyRoute::Cycle { backwards: true });
    k.vk = 0x4B;
    assert_eq!(route_key(k), KeyRoute::TypeChar { ch: 'k', commit_first: true, commit_after: false });
}

#[test]
fn prediction_list_keys() {
    let mut k = key(VK_DOWN);
    k.popup_visible = true;
    k.prediction_count = 3;
    k.prediction_index = 2;
    assert_eq!(route_key(k), KeyRoute::MovePrediction(0));
    k.vk = VK_UP;
    assert_eq!(route_key(k), KeyRoute::MovePrediction(1));
    k.vk = VK_RETURN;
    assert_eq!(route_key(k), KeyRoute::CommitPrediction(2));
    k.vk = 0x31;
    assert_eq!(route_key(k), KeyRoute::PickPrediction(0));
    k.vk = VK_DELETE;
    assert_eq!(route_key(k), KeyRoute::ResetPredictionLearning);
}

#[test]
fn editing_keys_while_composing() {
    assert_eq!(route_key(key(VK_BACK)), KeyRoute::Backspace);
    assert_eq!(route_key(key(VK_SPACE)), KeyRoute::CommitThenPass);
    assert_eq!(route_key(key(VK_RETURN)), KeyRoute::Commit);
    assert_eq!(route_key(key(VK_ESCAPE)), KeyRoute::Revert);
    let mut k = key(VK_LEFT);
    k.double_arrow = true;
    assert_eq!(route_key(k), KeyRoute::Arrow { left: true, double: true });
    let mut idle = key(VK_RETURN);
    idle.composing = false;
    assert_eq!(route_key(idle), KeyRoute::PassThrough);
}

#[test]
fn cursor_and_double_tap() {
    assert_eq!(move_prediction_cursor(0, 3, false), 2);
    assert_eq!(move_prediction_cursor(1, 3, true), 2);
    assert!(is_double_tap(VK_LEFT, 1000, VK_LEFT, 1200));
    assert!(!is_double_tap(VK_LEFT, 1000, VK_LEFT, 1300));
    assert!(is_double_tap(VK_LEFT, u32::MAX - 10, VK_LEFT, 100));
    assert!(!is_double_tap(VK_UP, 1000, VK_LEFT, 1001));
}

#[test]
fn hook_pass_through_cases() {
    assert!(hook_passes_through(-1, 0, true, false));
    assert!(hook_passes_through(0, 0x10, true, false));
    assert!(hook_passes_through(0, 0x11, true, false));
    assert!(hook_passes_through(0, 0, false, false));
    assert!(hook_passes_through(0, 0, true, true));
    assert!(!hook_passes_through(0, 0x01, true, false));
}
