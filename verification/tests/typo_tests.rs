use common::typo::accept_typo;
use common::typo::{TypoCorrector, CONFUSION_CONFIDENCE};

#[test]
fn test_typo_correction_rules() {
    let corrector = TypoCorrector::new();

    let candidates = corrector.correct("こんにちわ");
    assert!(!candidates.is_empty());
    assert_eq!(candidates[0].corrected, "こんにちは");
}

#[test]
fn test_edit_distance() {
    assert_eq!(TypoCorrector::edit_distance("きょう", "きょう"), 0);
    assert_eq!(TypoCorrector::edit_distance("きょう", "きょお"), 1);
    assert_eq!(TypoCorrector::edit_distance("abc", "abd"), 1);
}

#[test]
fn test_romaji_adjacent_variants() {
    let corrector = TypoCorrector::new();
    let variants = corrector.romaji_adjacent_variants("ka");
    assert!(!variants.is_empty());
    assert!(variants.iter().all(|v| v != "ka"));
    for v in &variants {
        assert_eq!(TypoCorrector::edit_distance("ka", v), 1);
    }
}

#[test]
fn test_partial_correction() {
    let corrector = TypoCorrector::new();

    let candidates = corrector.correct("わたしわげんきです");
    let has_correction = candidates.iter().any(|c| c.corrected.contains("わたしは"));
    assert!(has_correction);
}

#[test]
fn whole_reading_rule_and_its_confidence() {
    let corrector = TypoCorrector::default();
    let candidates = corrector.correct("こんにちわ");
    assert_eq!(candidates.len(), 1);
    assert_eq!(candidates[0].confidence, 950);
    assert_eq!(candidates[0].original, "こんにちわ");
}

#[test]
fn rule_then_confusable_kana_swap() {
    let corrector = TypoCorrector::new();
    let candidates = corrector.correct("きょお");
    let got: Vec<(String, u32)> = candidates.iter().map(|c| (c.corrected.clone(), c.confidence)).collect();
    assert_eq!(
        got,
        vec![("きょう".to_string(), 900), ("きょを".to_string(), CONFUSION_CONFIDENCE)]
    );
}

#[test]
fn inner_fix_has_nine_tenths_of_the_rule_confidence() {
    let corrector = TypoCorrector::new();
    let candidates = corrector.correct("わたしわげんきです");
    let got: Vec<(String, u32)> = candidates.iter().map(|c| (c.corrected.clone(), c.confidence)).collect();
    assert_eq!(
        got,
        vec![("わたしはげんきです".to_string(), 855), ("はたしわげんきです".to_string(), 600)]
    );
}

#[test]
fn short_rules_apply_to_the_whole_reading_only() {
    let corrector = TypoCorrector::new();
    let whole = corrector.correct("いて");
    assert_eq!(whole[0].corrected, "いって");
    assert_eq!(whole[0].confidence, 700);
    let inside = corrector.correct("かいてある");
    assert!(inside.iter().all(|c| c.corrected != "かいってある"));
}

#[test]
fn correct_reading_gives_nothing_from_the_table() {
    let corrector = TypoCorrector::new();
    assert!(corrector.correct("つづく").is_empty());
    assert!(corrector.correct("").is_empty());
}

#[test]
fn corrections_sorted_and_never_the_input() {
    let corrector = TypoCorrector::new();
    for input in ["きょおはこんにちわ", "おーきいほんお", "すごーい", "がっこうえいく"] {
        let cs = corrector.correct(input);
        for w in cs.windows(2) {
            assert!(w[0].confidence >= w[1].confidence);
        }
        for c in &cs {
            assert_ne!(c.corrected, input);
        }
        for (i, a) in cs.iter().enumerate() {
            for b in &cs[i + 1..] {
                assert_ne!(a.corrected, b.corrected);
            }
        }
    }
}

#[test]
fn adjacent_variants_exact_list() {
    let corrector = TypoCorrector::new();
    let variants = corrector.romaji_adjacent_variants("ka");
    assert_eq!(variants, vec!["ia", "ja", "kq", "ks", "kw", "kz", "la", "ma", "oa"]);
}

#[test]
fn adjacent_variants_skip_unknown_keys() {
    let corrector = TypoCorrector::new();
    assert!(corrector.romaji_adjacent_variants("-").is_empty());
    assert_eq!(corrector.romaji_adjacent_variants("p-"), vec!["l-", "o-"]);
}

#[test]
fn edit_distance_counts_characters() {
    assert_eq!(TypoCorrector::edit_distance("", "かな"), 2);
    assert_eq!(TypoCorrector::edit_distance("kitten", "sitting"), 3);
}

#[test]
fn typo_offered_and_first_only_when_cheaper() {
    assert_eq!(accept_typo(600, 10000, 9000, true), (false, false));
    assert_eq!(accept_typo(600, 10000, 7000, true), (true, true));
    assert_eq!(accept_typo(800, 10000, 9999, true), (true, true));
    assert_eq!(accept_typo(800, 10000, 10000, true), (true, false));
    assert_eq!(accept_typo(950, 10000, 10400, true), (true, true));
    assert_eq!(accept_typo(950, 10000, 10600, true), (true, false));
    assert_eq!(accept_typo(950, 10000, 7000, false), (true, false));
}
