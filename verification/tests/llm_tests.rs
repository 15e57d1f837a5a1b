use common::llm::{
    accept_conversion, accept_correction, build_prompt, choice_request, clean_output, conversion_request,
    count_katakana, is_all_hiragana, is_blank, is_emoji_or_symbol, looks_like_meta, parse_choice, parse_u64,
    tags_url, correction_request,
};
use common::{LlmConfig, OllamaBackend};

#[test]
fn test_clean_output() {
    assert_eq!(clean_output("今日はいい天気です"), "今日はいい天気です");
    assert_eq!(clean_output("「今日はいい天気です」"), "今日はいい天気です");
    assert_eq!(clean_output("今日はいい天気です\n(説明)"), "今日はいい天気です");
    assert_eq!(clean_output("  出力  "), "出力");
}

#[test]
fn test_build_prompt_includes_reading() {
    let p = build_prompt("きょう", "");
    assert!(p.contains("きょう"));
    let p2 = build_prompt("です", "今日はいい天気");
    assert!(p2.contains("今日はいい天気"));
    assert!(p2.contains("です"));
}

#[test]
fn test_empty_reading_returns_none() {
    assert!(conversion_request("", "").is_none());
    assert!(conversion_request("   ", "").is_none());
}

#[test]
fn test_is_all_hiragana() {
    assert!(is_all_hiragana("こんにちは"));
    assert!(is_all_hiragana("きょうは、いいてんき。"));
    assert!(is_all_hiragana("らーめん"));
    assert!(!is_all_hiragana("今日"));
    assert!(!is_all_hiragana("ラーメン"));
    assert!(!is_all_hiragana("PC"));
    assert!(!is_all_hiragana(""));
}

#[test]
fn test_clean_output_strips_arrow() {
    assert_eq!(clean_output("→ 今日は晴れ"), "今日は晴れ");
    assert_eq!(clean_output("入力 → 今日は晴れ"), "今日は晴れ");
}

#[test]
fn test_clean_output_strips_emoji() {
    assert_eq!(clean_output("私📖は本を読む"), "私は本を読む");
    assert_eq!(clean_output("今日は晴れ✨"), "今日は晴れ");
}

#[test]
fn test_clean_output_skips_meta_line() {
    assert_eq!(clean_output("# 指示\n今日は晴れ"), "今日は晴れ");
}

#[test]
fn test_count_katakana() {
    assert_eq!(count_katakana("テン気"), 2);
    assert_eq!(count_katakana("天気"), 0);
    assert_eq!(count_katakana("ラーメン"), 3);
}

#[test]
fn prompt_ends_with_reading_and_arrow() {
    let p = build_prompt("きょう", "  前の文  ");
    assert!(p.starts_with("# 指示\n"));
    assert!(p.ends_with("きょう → "));
    assert!(p.contains("「前の文」\n"));
    assert!(!build_prompt("きょう", "   ").contains("直前までの文章"));
}

#[test]
fn conversion_answer_checks() {
    assert_eq!(accept_conversion("きょう", "今日"), Some("今日".to_string()));
    assert_eq!(accept_conversion("きょう", "「きょう」"), None);
    assert_eq!(accept_conversion("きょう", "きょう。"), None);
    assert_eq!(accept_conversion("きょう", "\n\n"), None);
    assert_eq!(accept_conversion("きょう", "# 見出し\n以下が答え\n→ 今日"), Some("今日".to_string()));
}

#[test]
fn correction_answer_checks() {
    assert_eq!(accept_correction("今日わ会議", "今日は会議"), Some("今日は会議".to_string()));
    assert_eq!(accept_correction("天気", "テン気"), None);
    assert_eq!(accept_correction("今日", "指示に従います"), None);
    assert_eq!(accept_correction("今日", "きょう"), None);
}

#[test]
fn meta_and_blank_and_emoji() {
    assert!(looks_like_meta("#見出し"));
    assert!(looks_like_meta("以下のとおり"));
    assert!(looks_like_meta("```"));
    assert!(!looks_like_meta("今日は晴れ"));
    assert!(is_blank(" \u{3000}\t\n"));
    assert!(!is_blank(" a "));
    assert!(is_emoji_or_symbol('✨'));
    assert!(is_emoji_or_symbol('→'));
    assert!(!is_emoji_or_symbol('あ'));
}

#[test]
fn correction_request_shape() {
    let cands = vec!["今日は".to_string(), "京は".to_string(), "凶は".to_string(), "強は".to_string()];
    let (p, n) = correction_request("きょうは", "今日わ", &cands, "").unwrap();
    assert_eq!(n, 24);
    assert!(p.contains("参考候補: 今日は / 京は / 凶は / \n"));
    assert!(!p.contains("強は"));
    assert!(p.ends_with("下書き: 今日わ → "));
    assert!(correction_request("", "x", &cands, "").is_none());
    assert!(correction_request("x", " ", &cands, "").is_none());
    let long: String = std::iter::repeat('あ').take(100).collect();
    assert_eq!(correction_request(&long, "x", &Vec::new(), "").unwrap().1, 96);
    assert_eq!(correction_request(&long[..3 * 30], "x", &Vec::new(), "").unwrap().1, 46);
}

#[test]
fn choice_request_and_parse() {
    let cands: Vec<String> = (0..12).map(|i| format!("候補{}", i)).collect();
    let (p, n) = choice_request("きしゃ", "", &cands).unwrap();
    assert_eq!(n, 9);
    assert!(p.contains("1. 候補0\n"));
    assert!(p.contains("9. 候補8\n"));
    assert!(!p.contains("候補9"));
    assert!(p.ends_with("答え: "));
    assert!(choice_request("きしゃ", "", &vec!["一つ".to_string()]).is_none());
    assert_eq!(parse_choice("答えは 3 です", 9), Some(2));
    assert_eq!(parse_choice("0", 9), None);
    assert_eq!(parse_choice("7", 5), None);
    assert_eq!(parse_choice("なし", 5), None);
}

#[test]
fn tags_url_replaces_generate() {
    assert_eq!(tags_url("http://localhost:11434/api/generate"), "http://localhost:11434/api/tags");
    assert_eq!(tags_url("http://x/other"), "http://x/other");
}

#[test]
fn config_from_values() {
    let c = LlmConfig::from_env_values(None, None, None);
    assert_eq!(c.url, "http://localhost:11434/api/generate");
    assert_eq!(c.model, "qwen2.5:3b");
    assert_eq!(c.timeout_ms, 8000);
    let c = LlmConfig::from_env_values(Some("u".to_string()), Some("m".to_string()), Some("1500".to_string()));
    assert_eq!((c.url.as_str(), c.model.as_str(), c.timeout_ms), ("u", "m", 1500));
    let c = LlmConfig::from_env_values(None, None, Some("abc".to_string()));
    assert_eq!(c.timeout_ms, 8000);
    let b = OllamaBackend::new(c);
    assert_eq!(b.name(), "ollama");
}

#[test]
fn unsigned_parse_matches_std() {
    for s in ["0", "+7", "18446744073709551615", "18446744073709551616", "", "+", "-1", "1a", "007"] {
        assert_eq!(parse_u64(s), s.parse::<u64>().ok(), "{}", s);
    }
}
