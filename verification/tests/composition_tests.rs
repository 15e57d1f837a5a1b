use common::{CompositionState, InputContext};

#[test]
fn test_input_context_basic() {
    let mut ctx = InputContext::new();
    ctx.add_input("きょう");
    assert_eq!(ctx.state.get_reading(), "きょう");

    ctx.backspace();
    assert_eq!(ctx.state.get_reading(), "きょ");
}

fn provisional(ctx: &mut InputContext) {
    ctx.set_provisional(
        "きょう".to_string(),
        "今日".to_string(),
        vec!["今日".to_string(), "京".to_string(), "きょう".to_string()],
    );
}

#[test]
fn candidates_cycle_and_stop_at_the_ends() {
    let mut ctx = InputContext::default();
    provisional(&mut ctx);
    assert!(!ctx.prev_candidate());
    assert!(ctx.next_candidate());
    assert_eq!(ctx.state.get_text(), "京");
    assert!(ctx.next_candidate());
    assert_eq!(ctx.state.get_text(), "きょう");
    assert!(!ctx.next_candidate());
    assert_eq!(ctx.state.get_text(), "きょう");
    assert!(ctx.prev_candidate());
    assert_eq!(ctx.state.get_text(), "京");
}

#[test]
fn next_then_prev_gives_back_the_composition() {
    let mut ctx = InputContext::new();
    provisional(&mut ctx);
    assert!(ctx.next_candidate());
    assert!(ctx.prev_candidate());
    assert_eq!(ctx.state.get_text(), "今日");
    assert_eq!(ctx.state.get_reading(), "きょう");
    match &ctx.state {
        CompositionState::Provisional { selected_index, .. } => assert_eq!(*selected_index, 0),
        _ => panic!("still provisional"),
    }
}

#[test]
fn commit_records_history_and_empty_commit_is_refused() {
    let mut ctx = InputContext::new();
    assert_eq!(ctx.commit(), None);
    provisional(&mut ctx);
    ctx.next_candidate();
    assert_eq!(ctx.commit(), Some("京".to_string()));
    assert_eq!(ctx.history, vec!["京".to_string()]);
    assert!(!ctx.state.is_composing());
    assert_eq!(ctx.state.get_reading(), "");
    ctx.add_input("あ");
    assert_eq!(ctx.state.get_reading(), "あ");
    assert!(ctx.state.is_composing());
}

#[test]
fn cancel_returns_the_reading() {
    let mut ctx = InputContext::new();
    assert_eq!(ctx.cancel(), None);
    provisional(&mut ctx);
    assert_eq!(ctx.cancel(), Some("きょう".to_string()));
    assert_eq!(ctx.state.get_text(), "きょう");
}

#[test]
fn typing_during_provisional_goes_back_to_kana() {
    let mut ctx = InputContext::new();
    provisional(&mut ctx);
    ctx.add_input("は");
    assert_eq!(ctx.state.get_text(), "きょうは");
    provisional(&mut ctx);
    assert!(ctx.backspace());
    assert_eq!(ctx.state.get_text(), "きょ");
    ctx.clear();
    assert!(!ctx.backspace());
    assert!(!ctx.state.is_composing());
}

#[test]
fn auto_conversion_only_for_raw_kana() {
    let mut ctx = InputContext::new();
    assert!(!ctx.should_auto_convert(1000));
    ctx.add_input("そうです");
    assert!(ctx.should_auto_convert(0));
    provisional(&mut ctx);
    assert!(!ctx.should_auto_convert(1000));
    let fresh = CompositionState::new();
    assert_eq!(fresh.get_text(), "");
}
