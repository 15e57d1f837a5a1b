use common::{hiragana_to_katakana, katakana_to_hiragana, should_auto_convert};

#[test]
fn test_hiragana_to_katakana() {
    assert_eq!(hiragana_to_katakana("きょう"), "キョウ");
    assert_eq!(hiragana_to_katakana("こんにちは"), "コンニチハ");
    assert_eq!(hiragana_to_katakana("らすと"), "ラスト");
}

#[test]
fn test_katakana_to_hiragana() {
    assert_eq!(katakana_to_hiragana("キョウ"), "きょう");
    assert_eq!(katakana_to_hiragana("コンニチハ"), "こんにちは");
    assert_eq!(katakana_to_hiragana("ラスト"), "らすと");
}

#[test]
fn test_should_auto_convert_punctuation() {
    assert!(should_auto_convert("こんにちは。", 0));
    assert!(should_auto_convert("はい、", 0));
    assert!(!should_auto_convert("こんにちは", 0));
}

#[test]
fn test_should_auto_convert_endings() {
    assert!(should_auto_convert("そうです", 0));
    assert!(should_auto_convert("いきます", 0));
    assert!(should_auto_convert("それから", 0));
    assert!(!should_auto_convert("それ", 0));
}

#[test]
fn test_should_auto_convert_timeout() {
    assert!(should_auto_convert("こんにちは", 300));
    assert!(!should_auto_convert("こんにちは", 100));
}

#[test]
fn kana_round_trip_keeps_long_vowel() {
    // hiragana to katakana and back gives the hiragana again
    let h = "らーめんです";
    assert_eq!(katakana_to_hiragana(&hiragana_to_katakana(h)), h);
    assert_eq!(hiragana_to_katakana("らーめん"), "ラーメン");
}

#[test]
fn auto_convert_never_on_empty_input() {
    assert!(!should_auto_convert("", 10000));
}
