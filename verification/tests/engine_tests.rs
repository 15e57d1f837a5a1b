use common::records::{command_to_record, like_prefix_pattern};
use common::dictionary::ConnectionMatrix;
use common::incremental::IncrementalViterbi;
use common::ipadic::{matrix_from_text, parse_csv_line, parse_csv_text, parse_extra_line, parse_extra_words, parse_matrix_header, parse_matrix_line, MatrixError, parse_euc_jp_csv};
use common::keys::{popup_placement, PopupPlacement, autorun_label, candidate_page_start, command_settings_button_rect, is_commit_char, is_ime_toggle_vk, is_learnable_pair, is_single_kanji_entry, is_terminal_class, kind_label, normalize_input, to_wide, vk_to_ascii, vk_to_char, vowel_combos, Rect};
use common::scoring::{frequency_to_bonus, fuzzy_variants, is_content_pos, is_failed_segment, is_lone_particle, single_kanji_penalty};
use common::{CandidateKind, Dictionary, LiveConversionContext, NoopReranker, RomajiConverter, ViterbiConverter, WordEntry};

fn noun(surface: &str, reading: &str, cost: i16) -> WordEntry {
    WordEntry {
        surface: surface.to_string(),
        reading: reading.to_string(),
        left_id: 1,
        right_id: 1,
        cost,
        pos: "名詞-一般".to_string(),
    }
}

fn small_converter() -> ViterbiConverter {
    let mut dict = Dictionary::new();
    dict.add_word(noun("今日", "きょう", 5000));
    dict.add_word(WordEntry { surface: "は".into(), reading: "は".into(), left_id: 2, right_id: 2, cost: 3000, pos: "助詞".into() });
    dict.add_word(noun("天気", "てんき", 5200));
    ViterbiConverter::new(dict)
}

#[test]
fn cost_is_the_sum_along_the_chosen_path() {
    // matrix of the empty dictionary is 1x1, every connection costs 0
    let c = small_converter();
    let (words, cost) = c.convert_with_cost("きょうは");
    let surfaces: Vec<&str> = words.iter().map(|w| w.surface.as_str()).collect();
    assert_eq!(surfaces, vec!["今日", "は"]);
    assert_eq!(cost, 8000);
}

#[test]
fn empty_reading_converts_to_nothing() {
    let c = small_converter();
    let (words, cost) = c.convert_with_cost("");
    assert!(words.is_empty());
    assert_eq!(cost, 0);
    assert_eq!(c.convert_to_string(""), "");
}

#[test]
fn unknown_characters_cost_ten_thousand_each() {
    let mut c = small_converter();
    c.enable_katakana_fallback = false;
    let (words, cost) = c.convert_with_cost("ぬ");
    assert_eq!(words.len(), 1);
    assert_eq!(words[0].pos, "未知語");
    assert_eq!(cost, 10000);
}

#[test]
fn clean_reading_refuses_failed_segments() {
    let c = small_converter();
    assert_eq!(c.clean_reading("きょうは"), Some(("今日は".to_string(), 8000)));
    assert_eq!(c.clean_reading(""), None);
    assert_eq!(c.clean_reading("ぬぬ"), None);
}

#[test]
fn learning_and_forgetting_tables() {
    let mut c = small_converter();
    c.learn_unigram("きょう", "今日", 100);
    assert_eq!(c.learned_unigram.get(&("きょう".to_string(), "今日".to_string())), Some(&6000));
    c.learn_bigram("今日", "は", 1);
    assert_eq!(c.learned_bigram.get(&("今日".to_string(), "は".to_string())), Some(&1000));
    c.learn_bigram("今日", "は", 50);
    assert_eq!(c.learned_bigram.get(&("今日".to_string(), "は".to_string())), Some(&3000));
    c.learn_assoc("今日", "天気", 7);
    assert_eq!(c.learned_assoc.get(&("今日".to_string(), "天気".to_string())), Some(&7000));
    c.forget_unigram("きょう", "今日");
    assert!(!c.learned_unigram.contains_key(&("きょう".to_string(), "今日".to_string())));
    assert!(!c.learned_bigram.contains_key(&("今日".to_string(), "は".to_string())));
    assert!(!c.learned_assoc.contains_key(&("今日".to_string(), "天気".to_string())));
    c.learn_unigram("かんじ", "感じ", 2);
    c.forget_reading("かんじ");
    assert!(!c.learned_unigram.contains_key(&("かんじ".to_string(), "感じ".to_string())));
    assert!(!c.learned_unigram.contains_key(&("かんじ".to_string(), "漢字".to_string())));
    c.learn_hiragana("したい", 30);
    assert_eq!(c.learned_hiragana.get(&"したい".to_string()), Some(&3000));
}

#[test]
fn clearing_learning_restores_the_seed() {
    let mut c = small_converter();
    let fresh = small_converter();
    c.learn_unigram("きょう", "今日", 3);
    c.learn_bigram("今日", "は", 3);
    c.learn_hiragana("こい", 1);
    c.clear_learning();
    assert!(!c.learned_unigram.contains_key(&("きょう".to_string(), "今日".to_string())));
    assert!(c.learned_bigram.is_empty());
    assert!(c.learned_assoc.is_empty());
    assert_eq!(c.learned_unigram.get(&("を".to_string(), "を".to_string())), Some(&8000));
    assert_eq!(c.learned_unigram.get(&("あう".to_string(), "会う".to_string())),
               fresh.learned_unigram.get(&("あう".to_string(), "会う".to_string())));
    assert_eq!(c.learned_hiragana.get(&"したい".to_string()), Some(&1500));
    assert_eq!(c.learned_hiragana.get(&"こい".to_string()), None);
}

#[test]
fn lone_particle_stays_hiragana() {
    let mut dict = Dictionary::new();
    dict.add_word(noun("刃", "は", 100));
    let c = ViterbiConverter::new(dict);
    assert_eq!(c.convert_context_aware_to_string("は"), "は");
    let v = c.convert_context_aware("は");
    assert_eq!(v.len(), 1);
    assert_eq!(v[0].pos, "助詞-係助詞-*-*");
}

#[test]
fn n_best_results_are_distinct_and_bounded() {
    let c = small_converter();
    let r = c.n_best_strings("きょうは", 4);
    assert!(r.len() <= 4);
    assert!(!r.is_empty());
    assert_eq!(r[0], "今日は");
    for i in 0..r.len() {
        for j in (i + 1)..r.len() {
            assert_ne!(r[i], r[j]);
        }
    }
}

#[test]
fn incremental_matches_fresh_conversion() {
    let c = small_converter();
    let fresh = small_converter();
    let mut inc = IncrementalViterbi::new(c);
    assert_eq!(inc.convert_to_string("きょうは"), fresh.convert_to_string("きょうは"));
    // the same input again gives the remembered result
    assert_eq!(inc.convert_to_string("きょうは"), fresh.convert_to_string("きょうは"));
    let after = inc.backspace().iter().map(|e| e.surface.clone()).collect::<String>();
    assert_eq!(after, fresh.convert_to_string("きょう"));
    inc.clear_cache();
    assert!(inc.backspace().is_empty());
    assert!(inc.convert("").is_empty());
}

#[test]
fn live_context_commit_and_backspace() {
    let mut ctx = LiveConversionContext::new(small_converter());
    assert_eq!(ctx.add_hiragana("きょう"), "今日");
    assert_eq!(ctx.get_input_buffer(), "きょう");
    assert_eq!(ctx.backspace(), small_converter().convert_to_string("きょ"));
    assert_eq!(ctx.get_input_buffer(), "きょ");
    ctx.add_hiragana("う");
    assert_eq!(ctx.commit(), "今日");
    assert_eq!(ctx.get_input_buffer(), "");
    assert_eq!(ctx.get_conversion(), "");
    ctx.add_hiragana("は");
    ctx.clear();
    assert_eq!(ctx.get_conversion(), "");
    assert_eq!(ctx.backspace(), "");
}

#[test]
fn scoring_values() {
    assert_eq!(frequency_to_bonus(0), 0);
    assert_eq!(frequency_to_bonus(3), 3000);
    assert_eq!(frequency_to_bonus(25), 20000);
    assert_eq!(single_kanji_penalty("教", 300), 300);
    assert_eq!(single_kanji_penalty("今日", 300), 0);
    assert_eq!(single_kanji_penalty("あ", 300), 0);
    assert!(is_lone_particle("を"));
    assert!(!is_lone_particle("をを"));
    assert!(is_content_pos("名詞-一般"));
    assert!(is_content_pos("動詞-自立"));
    assert!(!is_content_pos("助詞-格助詞"));
    let unknown = WordEntry { surface: "ぬ".into(), reading: "ぬ".into(), left_id: 0, right_id: 0, cost: 0, pos: "未知語".into() };
    assert!(is_failed_segment(&unknown));
    assert!(!is_failed_segment(&noun("今日", "きょう", 1)));
    let v = fuzzy_variants("きよ");
    let got: Vec<(String, bool)> = v;
    assert_eq!(got, vec![
        ("よ".to_string(), true),
        ("き".to_string(), true),
        ("きょ".to_string(), false),
    ]);
}

#[test]
fn ipadic_csv_lines() {
    let line = "今日,1285,1285,5000,名詞,副詞可能,*,*,*,*,今日,キョウ,キョー";
    let e = parse_csv_line(line).unwrap();
    assert_eq!(e.surface, "今日");
    assert_eq!(e.reading, "きょう");
    assert_eq!((e.left_id, e.right_id, e.cost), (1285, 1285, 5000));
    assert_eq!(e.pos, "名詞-副詞可能-*-*");
    // too few fields
    assert!(parse_csv_line("今日,1,1,5000").is_none());
    // unreadable cost
    assert!(parse_csv_line("今日,1285,1285,abc,名詞,副詞可能,*,*,*,*,今日,キョウ,キョー").is_none());
    // negative cost is read
    assert_eq!(parse_csv_line("は,1,1,-300,助詞,係助詞,*,*,*,*,は,ハ,ワ").unwrap().cost, -300);
    // symbols without a kana reading are dropped
    assert!(parse_csv_line("！,5,5,100,記号,一般,*,*,*,*,！,*,*").is_none());
    // a kana spelling of a reading that is not a noun is dropped
    assert!(parse_csv_line("ツクり,1,1,100,動詞,自立,*,*,*,*,ツクる,ツクリ,ツクリ").is_none());
    // a katakana noun stays
    assert!(parse_csv_line("テレビ,1,1,100,名詞,一般,*,*,*,*,テレビ,テレビ,テレビ").is_some());
    let text = "今日,1285,1285,5000,名詞,副詞可能,*,*,*,*,今日,キョウ,キョー\r\nbad\n天気,1285,1285,5200,名詞,一般,*,*,*,*,天気,テンキ,テンキ\n";
    let all = parse_csv_text(text);
    assert_eq!(all.len(), 2);
    assert_eq!(all[1].surface, "天気");
}

#[test]
fn euc_jp_csv_is_decoded() {
    let (bytes, _, _) = encoding_rs::EUC_JP.encode("今日,1285,1285,5000,名詞,副詞可能,*,*,*,*,今日,キョウ,キョー\n");
    let (words, had_errors) = parse_euc_jp_csv(&bytes);
    assert!(!had_errors);
    assert_eq!(words.len(), 1);
    assert_eq!(words[0].reading, "きょう");
}

#[test]
fn matrix_text() {
    assert_eq!(parse_matrix_header(&"2 3".chars().collect()), Some((2, 3)));
    assert_eq!(parse_matrix_header(&"x 2 y 3 4".chars().collect()), Some((2, 3)));
    assert_eq!(parse_matrix_header(&"7".chars().collect()), None);
    assert_eq!(parse_matrix_line(&"1 0 -12".chars().collect()), Some((1, 0, -12)));
    assert_eq!(parse_matrix_line(&"1 0".chars().collect()), None);
    let m = matrix_from_text("2 2\n0 0 5\n1 1 -3\n1 0 7\nbad line\n").unwrap();
    assert_eq!((m.left_size, m.right_size), (2, 2));
    assert_eq!(m.get(0, 0), 5);
    assert_eq!(m.get(1, 1), -3);
    assert_eq!(m.get(1, 0), 7);
    assert_eq!(m.get(0, 1), 0);
    assert!(matches!(matrix_from_text(""), Err(MatrixError::Empty)));
    assert!(matches!(matrix_from_text("oops\n1 1 1"), Err(MatrixError::BadHeader)));
}

#[test]
fn extra_word_list() {
    assert_eq!(parse_extra_line(" かんじ , 漢字 , 3500 "), Some(("かんじ".to_string(), "漢字".to_string(), 3500)));
    assert_eq!(parse_extra_line("かんじ,漢字"), Some(("かんじ".to_string(), "漢字".to_string(), 4000)));
    assert_eq!(parse_extra_line("かんじ,漢字,x"), Some(("かんじ".to_string(), "漢字".to_string(), 4000)));
    assert_eq!(parse_extra_line("# comment"), None);
    assert_eq!(parse_extra_line("   "), None);
    assert_eq!(parse_extra_line("かんじ, "), None);
    let ws = parse_extra_words("かんじ,漢字\n#x\nごじ,誤字,100\n");
    assert_eq!(ws.len(), 2);
    assert_eq!(ws[1].cost, 100);
    assert_eq!(ws[1].left_id, 1285);
    assert_eq!(ws[1].pos, "名詞-一般-*-*");
}

#[test]
fn key_helpers() {
    assert_eq!(vk_to_char(0x41, 0, false), Some('a'));
    assert_eq!(vk_to_char(0x5A, 0, true), Some('Z'));
    assert_eq!(vk_to_char(0xBC, 0, false), Some(','));
    assert_eq!(vk_to_char(0xBC, 0, true), None);
    assert_eq!(vk_to_char(0x31, 0, true), Some('!'));
    assert_eq!(vk_to_ascii(0x32, true), Some('@'));
    assert_eq!(vk_to_ascii(0x30, true), Some(')'));
    assert_eq!(vk_to_ascii(0x65, false), Some('5'));
    assert_eq!(vk_to_ascii(0x20, false), Some(' '));
    assert_eq!(vk_to_ascii(0xDC, false), Some('\\'));
    assert_eq!(vk_to_ascii(0x07, false), None);
    assert!(is_commit_char('.') && !is_commit_char('a'));
    assert!(is_ime_toggle_vk(0xF3) && !is_ime_toggle_vk(0x20));
    assert_eq!(candidate_page_start(0), 0);
    assert_eq!(candidate_page_start(8), 0);
    assert_eq!(candidate_page_start(9), 9);
    assert_eq!(candidate_page_start(20), 18);
    let r = command_settings_button_rect(&Rect { left: 0, top: 0, right: 300, bottom: 100 });
    assert_eq!(r, Rect { left: 210, top: 5, right: 294, bottom: 27 });
    assert_eq!(autorun_label(true), "即実行");
    assert_eq!(autorun_label(false), "✎挿入のみ");
    assert_eq!(kind_label(&CandidateKind::UserDictionary), "ユ辞");
    assert!(is_terminal_class("ConsoleWindowClass"));
    assert!(is_terminal_class("mintty-x"));
    assert!(!is_terminal_class("Notepad"));
    assert!(is_single_kanji_entry(&noun("教", "きょう", 1)));
    assert!(!is_single_kanji_entry(&noun("今日", "きょう", 1)));
    assert_eq!(common::keys::single_kanji_penalty("教"), 2000);
    assert_eq!(NoopReranker.name(), "noop");
}

#[test]
fn learnable_pairs() {
    assert!(!is_learnable_pair("に", "二"));
    assert!(is_learnable_pair("に", "に"));
    assert!(!is_learnable_pair("きょう", "kyou"));
    assert!(!is_learnable_pair("じ", "時"));
    assert!(!is_learnable_pair("かん", "カン"));
    assert!(is_learnable_pair("らーめん", "ラーメン"));
    assert!(is_learnable_pair("きょう", "今日"));
}

#[test]
fn vowels_and_wide_text() {
    let v = vowel_combos(2);
    assert_eq!(v.len(), 25);
    assert_eq!(v[0], vec!['a', 'a']);
    assert_eq!(v[1], vec!['a', 'i']);
    assert_eq!(v[24], vec!['o', 'o']);
    assert_eq!(vowel_combos(0), vec![Vec::<char>::new()]);
    let w = to_wide("a漢😀");
    let expected: Vec<u16> = "a漢😀".encode_utf16().chain(std::iter::once(0)).collect();
    assert_eq!(w, expected);
}

#[test]
fn normalize_typed_line() {
    let r = RomajiConverter::new();
    assert_eq!(normalize_input(&r, "kyou"), "きょう");
    assert_eq!(normalize_input(&r, "キョウ"), "きょう");
}

#[test]
fn matrix_new_is_zero() {
    let m = ConnectionMatrix::new(4, 5);
    assert_eq!(m.costs.len(), 20);
    assert!(m.costs.iter().all(|c| *c == 0));
}

#[test]
fn like_pattern_escapes_wildcards() {
    assert_eq!(like_prefix_pattern("かい"), "かい%");
    assert_eq!(like_prefix_pattern("a%b_c\\"), "a\\%b\\_c\\\\%");
    assert_eq!(like_prefix_pattern(""), "%");
}

#[test]
fn commands_recorded_trimmed_and_long_enough() {
    assert_eq!(command_to_record("  git status \n"), Some("git status".to_string()));
    assert_eq!(command_to_record(" l "), None);
    assert_eq!(command_to_record("ls"), Some("ls".to_string()));
    assert_eq!(command_to_record("   "), None);
}

#[test]
fn popup_goes_below_the_caret_when_it_fits() {
    let work = Rect { left: 0, top: 0, right: 1920, bottom: 1040 };
    assert_eq!(popup_placement(3, 4, 100, 200, 220, &work), PopupPlacement { x: 100, y: 222, width: 136, height: 104 });
}

#[test]
fn popup_goes_above_the_caret_near_the_bottom() {
    let work = Rect { left: 0, top: 0, right: 1920, bottom: 1040 };
    assert_eq!(popup_placement(3, 4, 1900, 980, 1000, &work), PopupPlacement { x: 1784, y: 874, width: 136, height: 104 });
}

#[test]
fn popup_is_capped_in_width_and_height() {
    let work = Rect { left: 0, top: 0, right: 1920, bottom: 1040 };
    assert_eq!(popup_placement(100, 100, 100, 200, 220, &work), PopupPlacement { x: 100, y: 0, width: 640, height: 1040 });
}
