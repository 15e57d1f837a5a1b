use common::session::{
    add_history_predictions, backspace_keep, conversion_looks_failed, cycle_index, fuzzy_suggestion_due, edit_action, hiragana_pref_tail,
    is_stuck_romaji, kana_tail_split, keep_recent, learning_plan, next_kana_tail, prediction_display,
    rank_segment_candidates, revert_len, romaji_repair_readings, romaji_repair_suggest, romaji_settle,
    segments_to_learn, target_segment, user_word_entry, MAX_CONVERSION_CANDIDATES, USER_WORD_POS_ID,
};
use common::{Dictionary, RomajiConverter, ViterbiConverter, WordEntry};

fn word(surface: &str, reading: &str, cost: i16, pos: &str) -> WordEntry {
    WordEntry {
        surface: surface.to_string(),
        reading: reading.to_string(),
        left_id: 1,
        right_id: 1,
        cost,
        pos: pos.to_string(),
    }
}

fn s(x: &str) -> String {
    x.to_string()
}

#[test]
fn edit_keeps_the_common_prefix() {
    let a = edit_action("今日h", "今日は").unwrap();
    assert_eq!(a.delete_count, 1);
    assert_eq!(a.insert_text, "は");
    let b = edit_action("今日", "今日は").unwrap();
    assert_eq!((b.delete_count, b.insert_text.as_str()), (0, "は"));
    let c = edit_action("きょうは", "今日は").unwrap();
    assert_eq!((c.delete_count, c.insert_text.as_str()), (4, "今日は"));
    assert!(edit_action("同じ", "同じ").is_none());
}

#[test]
fn edit_applied_gives_the_new_text() {
    for (old, new) in [("abc", "abd"), ("", "かな"), ("漢字", ""), ("きょう", "今日")] {
        let a = edit_action(old, new).unwrap();
        let kept: String = old.chars().take(old.chars().count() - a.delete_count).collect();
        assert_eq!(format!("{}{}", kept, a.insert_text), new);
    }
}

#[test]
fn failed_conversion_check() {
    assert!(conversion_looks_failed("するう"));
    assert!(conversion_looks_failed("キヅツイテ"));
    assert!(!conversion_looks_failed("今日は"));
    assert!(!conversion_looks_failed("あ"));
    assert!(conversion_looks_failed("しましたk"));
    assert!(!conversion_looks_failed("あいうえおかきくけこさしすせそたち"));
}

#[test]
fn recent_context_keeps_sixty_characters() {
    assert_eq!(keep_recent("前の文", "。次"), "前の文。次");
    let long: String = std::iter::repeat('あ').take(59).collect();
    let r = keep_recent(&long, "いう");
    assert_eq!(r.chars().count(), 60);
    assert!(r.ends_with("あいう"));
}

#[test]
fn stuck_and_settled_romaji() {
    let r = RomajiConverter::new();
    assert!(!is_stuck_romaji(&r, "k"));
    assert!(!is_stuck_romaji(&r, "sh"));
    assert!(!is_stuck_romaji(&r, "gm"));
    assert!(!is_stuck_romaji(&r, ""));
    let chars: Vec<char> = "さyなら".chars().collect();
    assert_eq!(romaji_settle(&r, &chars), None);
    let chars: Vec<char> = "さyoなら".chars().collect();
    assert_eq!(romaji_settle(&r, &chars), Some(s("さよなら")));
    let one: Vec<char> = "a".chars().collect();
    assert_eq!(romaji_settle(&r, &one), None);
}

#[test]
fn repair_readings_include_vowel_completion() {
    let r = RomajiConverter::new();
    let readings = romaji_repair_readings(&r, "さyなら");
    assert!(readings.contains(&s("さよなら")));
    assert!(readings.contains(&s("さなら")));
    assert!(readings.len() <= 80);
    let mut sorted = readings.clone();
    sorted.sort();
    sorted.dedup();
    assert_eq!(sorted.len(), readings.len());
    assert!(readings.iter().all(|x| !x.chars().any(|c| c.is_ascii_alphabetic()) && x.chars().count() >= 2));
}

#[test]
fn repair_suggestion_picks_a_real_word() {
    let mut dict = Dictionary::new();
    dict.add_word(word("さよなら", "さよなら", 3000, "感動詞"));
    let conv = ViterbiConverter::new(dict);
    let r = RomajiConverter::new();
    let got = romaji_repair_suggest(&conv, &r, "さyなら", "");
    assert_eq!(got, Some((s("さよなら"), s("さよなら"))));
    assert_eq!(romaji_repair_suggest(&conv, &r, "さよなら", ""), None);
}

#[test]
fn prediction_labels() {
    let preds = vec![(s("かいぎ"), s("会議")), (s(""), s("です"))];
    assert_eq!(prediction_display(&preds, true), vec![s("もしかして: 会議"), s("です")]);
    assert_eq!(prediction_display(&preds, false), vec![s("会議"), s("です")]);
}

#[test]
fn learning_plan_filters() {
    let segs = vec![
        (s("かのう"), s("可能"), s("名詞-形容動詞語幹")),
        (s("せい"), s("性"), s("名詞-接尾-一般")),
        (s("が"), s("が"), s("助詞-格助詞")),
        (s("たかい"), s("高い"), s("形容詞-自立")),
    ];
    let plan = learning_plan(&segs);
    assert_eq!(plan.unigrams, vec![(s("かのう"), s("可能")), (s("たかい"), s("高い"))]);
    assert_eq!(
        plan.bigrams,
        vec![(s("可能"), s("性")), (s("性"), s("が")), (s("が"), s("高い"))]
    );
    assert_eq!(plan.assocs, vec![(s("可能"), s("性")), (s("性"), s("高い"))]);
}

#[test]
fn learning_plan_skips_particles_written_otherwise() {
    let segs = vec![(s("に"), s("二"), s("名詞-数")), (s("ほん"), s("本"), s("名詞-一般"))];
    let plan = learning_plan(&segs);
    assert!(plan.unigrams.iter().all(|(r, _)| r != "に"));
    assert!(plan.bigrams.is_empty());
}

#[test]
fn target_widens_over_single_kanji() {
    let entries = vec![
        word("今日", "きょう", 100, "名詞"),
        word("は", "は", 100, "助詞"),
        word("変", "へん", 100, "名詞"),
        word("換", "かん", 100, "名詞"),
        word("です", "です", 100, "助動詞"),
    ];
    let t = target_segment(&entries);
    assert_eq!((t.start, t.end), (2, 3));
    assert_eq!(t.reading, "へんかん");
    assert_eq!(t.prefix_surface, "今日は");
    assert_eq!(t.prefix_reading, "きょうは");
    assert_eq!(t.suffix_surface, "です");
    assert_eq!(t.suffix_reading, "です");
    let plain = vec![word("あ", "あ", 1, "感動詞"), word("い", "い", 1, "感動詞")];
    let t = target_segment(&plain);
    assert_eq!((t.start, t.end), (1, 1));
}

#[test]
fn candidates_ranked_by_learning_then_cost() {
    let words = vec![
        word("県", "けん", 3000, "名詞"),
        word("件", "けん", 4000, "名詞"),
        word("剣", "けん", 5000, "名詞"),
        word("券", "けん", 3500, "名詞"),
    ];
    let freqs = vec![0, 0, 2, 0];
    let r = rank_segment_candidates(&words, &freqs, "けん", "その", "です");
    assert_eq!(r.seg_surfaces, vec![s("剣"), s("県"), s("券"), s("件"), s("ケン"), s("けん")]);
    assert_eq!(r.candidates[0], "その剣です");
    assert_eq!(r.candidates.len(), r.seg_surfaces.len());
}

#[test]
fn candidates_without_repeats_and_capped() {
    let mut words = Vec::new();
    for i in 0..60 {
        words.push(word(&format!("語{}", i), "ご", 100 + i as i16, "名詞"));
    }
    words.push(word("語0", "ご", 1, "名詞"));
    let freqs = vec![0; words.len()];
    let r = rank_segment_candidates(&words, &freqs, "ご", "", "");
    assert_eq!(r.candidates.len(), MAX_CONVERSION_CANDIDATES);
    assert_eq!(r.candidates[0], "語0");
    assert_eq!(r.candidates[1], "語1");
}

#[test]
fn kana_revert_lengths() {
    let entries = vec![word("今日", "きょう", 1, "名詞"), word("は", "は", 1, "助詞")];
    assert_eq!(revert_len(&entries, 4), 4);
    let none = vec![word("あ", "あ", 1, "感動詞")];
    assert_eq!(revert_len(&none, 7), 7);
    assert_eq!(next_kana_tail(0, 4, 10), 4);
    assert_eq!(next_kana_tail(2, 0, 10), 3);
    assert_eq!(next_kana_tail(8, 5, 10), 10);
}

#[test]
fn backspace_drops_the_last_word() {
    let entries = vec![word("今日", "きょう", 1, "名詞"), word("は", "は", 1, "助詞")];
    assert_eq!(backspace_keep(&entries, 4), 3);
    assert_eq!(backspace_keep(&Vec::new(), 4), 3);
    assert_eq!(backspace_keep(&entries, 1), 0);
}

#[test]
fn tail_split_and_preference() {
    assert_eq!(kana_tail_split("きょうはした", 3), (s("きょう"), s("はした")));
    assert_eq!(kana_tail_split("あ", 5), (s(""), s("あ")));
    assert_eq!(hiragana_pref_tail("きょうしたい", 3), Some(s("したい")));
    assert_eq!(hiragana_pref_tail("きょうて", 1), None);
    assert_eq!(hiragana_pref_tail("きょう", 0), None);
}

#[test]
fn cycling_wraps_around() {
    assert_eq!(cycle_index(0, 3, false), 1);
    assert_eq!(cycle_index(2, 3, false), 0);
    assert_eq!(cycle_index(0, 3, true), 2);
    assert_eq!(cycle_index(1, 3, true), 0);
}

#[test]
fn history_predictions_filtered() {
    let mut preds = vec![(s("かいぎ"), s("会議"))];
    let found = vec![
        (s("かいぎしつ"), s("会議室"), 3),
        (s("かいしゃ"), s("会議"), 2),
        (s("かい"), s("会"), 5),
        (s("かいはつ"), s("開発"), 0),
        (s("かいけい"), s("会計"), 1),
    ];
    add_history_predictions(&mut preds, &found, 2);
    assert_eq!(preds, vec![(s("かいぎ"), s("会議")), (s("かいぎしつ"), s("会議室")), (s("かいけい"), s("会計"))]);
}

#[test]
fn segments_follow_selection_or_tail() {
    let mut dict = Dictionary::new();
    dict.add_word(word("今日", "きょう", 100, "名詞"));
    dict.add_word(word("は", "は", 100, "助詞"));
    let conv = ViterbiConverter::new(dict);
    let none: Vec<String> = Vec::new();
    let segs = segments_to_learn(&conv, "きょうは", &none, 0, "", "", "", 0);
    assert_eq!(segs.iter().map(|t| t.1.as_str()).collect::<String>(), conv.convert_to_string("きょうは"));
    let chosen = vec![s("京"), s("今日")];
    let segs = segments_to_learn(&conv, "きょうは", &chosen, 1, "きょう", "", "は", 0);
    assert_eq!(segs[0], (s("きょう"), s("今日"), s("名詞-一般")));
    let segs = segments_to_learn(&conv, "きょうは", &none, 0, "", "", "", 1);
    assert_eq!(segs.last().unwrap(), &(s("は"), s("は"), s("名詞-一般")));
    assert!(segments_to_learn(&conv, "", &none, 0, "", "", "", 0).is_empty());
}

#[test]
fn user_words_are_common_nouns() {
    let e = user_word_entry(s("らすと"), s("Rust"), 2000, None);
    assert_eq!(e.left_id, USER_WORD_POS_ID);
    assert_eq!(e.pos, "名詞-一般-*-*");
    let e = user_word_entry(s("らすと"), s("Rust"), 50, Some(s("名詞-固有名詞")));
    assert_eq!((e.cost, e.pos.as_str()), (50, "名詞-固有名詞"));
}

#[test]
fn did_you_mean_only_for_failed_kana() {
    assert!(fuzzy_suggestion_due("", "するう", "するう"));
    assert!(!fuzzy_suggestion_due("k", "するう", "するう"));
    assert!(!fuzzy_suggestion_due("", "するうk", "するう"));
    assert!(!fuzzy_suggestion_due("", "きょうは", "今日は"));
}
