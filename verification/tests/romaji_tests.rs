use common::RomajiConverter;

#[test]
fn test_romaji_conversion() {
    let converter = RomajiConverter::new();

    assert_eq!(converter.convert("konnichiha"), "こんにちは");
    assert_eq!(converter.convert("arigatou"), "ありがとう");
    assert_eq!(converter.convert("kyou"), "きょう");
    assert_eq!(converter.convert("gakkou"), "がっこう");
    assert_eq!(converter.convert("senpai"), "せんぱい");
}

#[test]
fn test_romaji_extended_mappings() {
    let converter = RomajiConverter::new();

    assert_eq!(converter.convert("ra-menn"), "らーめん");
    assert_eq!(converter.convert("hai."), "はい。");
    assert_eq!(converter.convert("sou,"), "そう、");
    assert_eq!(converter.convert("fairu"), "ふぁいる");
    assert_eq!(converter.convert("vaiorinn"), "ゔぁいおりん");
    assert_eq!(converter.convert("thi-mu"), "てぃーむ");
    assert_eq!(converter.convert("dhizuni-"), "でぃずにー");
    assert_eq!(converter.convert("xtu"), "っ");
    assert_eq!(converter.convert("ltsu"), "っ");
    assert_eq!(converter.convert("xyo"), "ょ");
    assert_eq!(converter.convert("who-ta-"), "うぉーたー");
}

#[test]
fn test_romaji_uppercase() {
    let converter = RomajiConverter::new();
    assert_eq!(converter.convert("KYOU"), "きょう");
    assert_eq!(converter.convert("Kyou"), "きょう");
}

#[test]
fn test_romaji_kunrei_youon() {
    let converter = RomajiConverter::new();
    assert_eq!(converter.convert("zyunbann"), "じゅんばん");
    assert_eq!(converter.convert("tya"), "ちゃ");
    assert_eq!(converter.convert("zya"), "じゃ");
}

#[test]
fn test_romaji_sokuon_and_n() {
    let c = RomajiConverter::new();
    assert_eq!(c.convert("kitte"), "きって");
    assert_eq!(c.convert("gakkou"), "がっこう");
    assert_eq!(c.convert("shinbunn"), "しんぶん");
    assert_eq!(c.convert("annnai"), "あんない");
    assert_eq!(c.convert("kyakka"), "きゃっか");
    assert_eq!(c.convert("shixtu"), "しっ");
}

#[test]
fn test_romaji_never_all_ascii_stuck() {
    let c = RomajiConverter::new();
    let (settled, _pending) = c.split("zyabsurd");
    assert!(settled.chars().any(|ch| ('\u{3041}'..='\u{3096}').contains(&ch)));
}

#[test]
fn test_romaji_split() {
    let converter = RomajiConverter::new();
    assert_eq!(converter.split("kyou"), ("きょう".to_string(), String::new()));
    assert_eq!(converter.split("k"), (String::new(), "k".to_string()));
    assert_eq!(converter.split("kya"), ("きゃ".to_string(), String::new()));
    assert_eq!(converter.split("kyouk"), ("きょう".to_string(), "k".to_string()));
    assert_eq!(converter.split("n"), (String::new(), "n".to_string()));
    assert_eq!(converter.split("nn"), ("ん".to_string(), String::new()));
    assert_eq!(converter.split("zyunban"), ("じゅんば".to_string(), "n".to_string()));
}

#[test]
fn romaji_default_matches_new() {
    let a = RomajiConverter::default();
    let b = RomajiConverter::new();
    assert_eq!(a.convert("shinbun"), b.convert("shinbun"));
}

#[test]
fn upper_case_reads_as_lower_case() {
    let c = RomajiConverter::new();
    assert_eq!(c.convert("KyOu"), c.convert("kyou"));
    assert_eq!(c.convert("ZYU"), "じゅ");
}

#[test]
fn default_table_edges() {
    let c = RomajiConverter::new();
    assert_eq!(c.convert("n"), "n");
    assert_eq!(c.convert("nn"), "ん");
    assert_eq!(c.convert("zyu"), "じゅ");
    assert_eq!(c.convert("tya"), "ちゃ");
    assert_eq!(c.convert("dyo"), "ぢょ");
    assert_eq!(c.convert("&@/"), "&@/");
    assert_eq!(c.convert("-,.?![]~"), "ー、。？！「」〜");
}

#[test]
fn text_without_ascii_is_unchanged() {
    let c = RomajiConverter::new();
    assert_eq!(c.convert("日本語です"), "日本語です");
    assert_eq!(c.convert("ｋａ"), "ｋａ");
    assert_eq!(c.convert("1 + 2 = 3;"), "1 + 2 = 3;");
}

#[test]
fn no_capitals_in_output() {
    let c = RomajiConverter::new();
    let out = c.convert("XYZ Kyou QQ");
    assert!(!out.chars().any(|ch| ch.is_ascii_uppercase()));
    assert_eq!(out, "xyz きょう っq");
}
