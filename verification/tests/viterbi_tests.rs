use common::dictionary::ConnectionMatrix;
use common::{Dictionary, LiveConversionContext, ViterbiConverter, WordEntry};

fn create_test_dictionary() -> Dictionary {
    let mut dict = Dictionary::new();
    dict.add_word(WordEntry {
        surface: "今日".to_string(),
        reading: "きょう".to_string(),
        left_id: 1, right_id: 1, cost: 5000,
        pos: "名詞".to_string(),
    });
    dict.add_word(WordEntry {
        surface: "は".to_string(),
        reading: "は".to_string(),
        left_id: 2, right_id: 2, cost: 3000,
        pos: "助詞".to_string(),
    });
    dict.add_word(WordEntry {
        surface: "良い".to_string(),
        reading: "いい".to_string(),
        left_id: 3, right_id: 3, cost: 5500,
        pos: "形容詞".to_string(),
    });
    dict.add_word(WordEntry {
        surface: "天気".to_string(),
        reading: "てんき".to_string(),
        left_id: 1, right_id: 1, cost: 5200,
        pos: "名詞".to_string(),
    });
    dict.add_word(WordEntry {
        surface: "です".to_string(),
        reading: "です".to_string(),
        left_id: 4, right_id: 4, cost: 4000,
        pos: "助動詞".to_string(),
    });
    dict
}

fn flat_matrix(cost: i16) -> ConnectionMatrix {
    let mut m = ConnectionMatrix::new(10, 10);
    for i in 0..10 {
        for j in 0..10 {
            m.set(i, j, cost);
        }
    }
    m
}

#[test]
fn test_viterbi_conversion() {
    let dict = create_test_dictionary();
    let converter = ViterbiConverter::new(dict);
    let result = converter.convert_to_string("きょうは");
    assert!(result.contains("今日") || result.contains("は"));
}

#[test]
fn test_katakana_fallback_for_unknown() {
    let mut dict = Dictionary::new();
    dict.matrix = flat_matrix(200);
    dict.add_word(WordEntry {
        surface: "は".to_string(),
        reading: "は".to_string(),
        left_id: 4, right_id: 4, cost: 3000,
        pos: "助詞".to_string(),
    });
    let converter = ViterbiConverter::new(dict);
    let result = converter.convert_to_string("らすと");
    assert_eq!(result, "ラスト", "カタカナフォールバックが効いていない");
}

#[test]
fn test_learned_unigram_changes_live_conversion() {
    let mut dict = Dictionary::new();
    dict.matrix = flat_matrix(200);
    dict.add_word(WordEntry {
        surface: "記者".to_string(), reading: "きしゃ".to_string(),
        left_id: 1, right_id: 1, cost: 5000, pos: "名詞".to_string(),
    });
    dict.add_word(WordEntry {
        surface: "汽車".to_string(), reading: "きしゃ".to_string(),
        left_id: 1, right_id: 1, cost: 5500, pos: "名詞".to_string(),
    });
    let mut converter = ViterbiConverter::new(dict);
    assert_eq!(converter.convert_to_string("きしゃ"), "記者");
    converter.learn_unigram("きしゃ", "汽車", 5);
    assert_eq!(converter.convert_to_string("きしゃ"), "汽車");
}

#[test]
fn test_context_assoc_disambiguates() {
    let mut dict = Dictionary::new();
    dict.matrix = flat_matrix(200);
    dict.add_word(WordEntry { surface: "記者".into(), reading: "きしゃ".into(), left_id: 1, right_id: 1, cost: 5000, pos: "名詞-一般".into() });
    dict.add_word(WordEntry { surface: "汽車".into(), reading: "きしゃ".into(), left_id: 1, right_id: 1, cost: 5000, pos: "名詞-一般".into() });
    dict.add_word(WordEntry { surface: "新聞".into(), reading: "しんぶん".into(), left_id: 1, right_id: 1, cost: 5000, pos: "名詞-一般".into() });
    dict.add_word(WordEntry { surface: "駅".into(), reading: "えき".into(), left_id: 1, right_id: 1, cost: 5000, pos: "名詞-一般".into() });
    dict.add_word(WordEntry { surface: "の".into(), reading: "の".into(), left_id: 2, right_id: 2, cost: 3000, pos: "助詞-連体化".into() });
    let mut converter = ViterbiConverter::new(dict);
    converter.enable_katakana_fallback = false;
    converter.learn_assoc("新聞", "記者", 5);
    converter.learn_assoc("駅", "汽車", 5);
    assert!(converter.convert_context_aware_to_string("しんぶんのきしゃ").contains("記者"));
    assert!(converter.convert_context_aware_to_string("えきのきしゃ").contains("汽車"));
}

#[test]
fn test_learned_bigram_improves_consistency() {
    let mut dict = Dictionary::new();
    dict.matrix = flat_matrix(200);
    dict.add_word(WordEntry {
        surface: "貴社".to_string(), reading: "きしゃ".to_string(),
        left_id: 1, right_id: 1, cost: 5000, pos: "名詞".to_string(),
    });
    dict.add_word(WordEntry {
        surface: "記者".to_string(), reading: "きしゃ".to_string(),
        left_id: 1, right_id: 1, cost: 5000, pos: "名詞".to_string(),
    });
    dict.add_word(WordEntry {
        surface: "会見".to_string(), reading: "かいけん".to_string(),
        left_id: 1, right_id: 1, cost: 5000, pos: "名詞".to_string(),
    });
    let mut converter = ViterbiConverter::new(dict);
    converter.learn_bigram("記者", "会見", 5);
    let result = converter.convert_to_string("きしゃかいけん");
    assert!(result.contains("記者"), "bigram学習が効いていない: {}", result);
}

#[test]
fn test_wo_stays_particle_not_katakana() {
    let mut dict = Dictionary::new();
    dict.matrix = flat_matrix(500);
    dict.add_word(WordEntry {
        surface: "ヲ".into(), reading: "を".into(),
        left_id: 1, right_id: 1, cost: 3733, pos: "名詞-固有名詞-一般-*".into(),
    });
    dict.add_word(WordEntry {
        surface: "を".into(), reading: "を".into(),
        left_id: 4, right_id: 4, cost: 4183, pos: "助詞-格助詞-一般-*".into(),
    });
    let converter = ViterbiConverter::new(dict);
    assert_eq!(converter.convert_to_string("を"), "を");
}

#[test]
fn test_add_and_remove_user_word() {
    let mut dict = create_test_dictionary();
    assert!(dict.lookup("おもいでのしな").is_none());
    dict.add_word(WordEntry {
        surface: "思い出の品".to_string(),
        reading: "おもいでのしな".to_string(),
        left_id: 1285, right_id: 1285, cost: 3800,
        pos: "名詞-一般-*-*".to_string(),
    });
    let conv = ViterbiConverter::new(dict);
    let s = conv.convert_to_string("おもいでのしな");
    assert!(s.contains("思い出の品"), "登録語が変換に出るべき: {}", s);

    let mut dict2 = create_test_dictionary();
    dict2.add_word(WordEntry {
        surface: "思い出の品".to_string(),
        reading: "おもいでのしな".to_string(),
        left_id: 1285, right_id: 1285, cost: 3800,
        pos: "名詞-一般-*-*".to_string(),
    });
    assert!(dict2.lookup("おもいでのしな").is_some());
    assert!(dict2.remove_word("おもいでのしな", "思い出の品"));
    assert!(dict2.lookup("おもいでのしな").is_none());
}

#[test]
fn test_fuzzy_suggest() {
    let converter = ViterbiConverter::new(create_test_dictionary());
    let r = converter.fuzzy_suggest("きようは");
    assert!(r.is_some(), "誤字補正が出るべき");
    let (reading, surface) = r.unwrap();
    assert_eq!(reading, "きょうは");
    assert!(surface.contains("今日"), "補正後に今日を含むべき: {}", surface);
    assert!(converter.fuzzy_suggest("きょうは").is_none());
}

#[test]
fn test_learned_hiragana_preference() {
    let mut dict = Dictionary::new();
    dict.matrix = flat_matrix(200);
    dict.add_word(WordEntry {
        surface: "恋".into(), reading: "こい".into(),
        left_id: 1, right_id: 1, cost: 4000, pos: "名詞-一般".into(),
    });
    let mut converter = ViterbiConverter::new(dict);
    converter.enable_katakana_fallback = false;
    assert_eq!(converter.convert_to_string("こい"), "恋");
    converter.learn_hiragana("こい", 1);
    assert_eq!(converter.convert_to_string("こい"), "こい");
}

#[test]
fn test_common_word_seed_applied() {
    let converter = ViterbiConverter::new(create_test_dictionary());
    assert!(converter.learned_unigram.contains_key(&("あう".to_string(), "会う".to_string())));
    assert_eq!(
        converter.learned_unigram.get(&("を".to_string(), "を".to_string())),
        Some(&8000)
    );
}

#[test]
fn test_single_kanji_penalty_prefers_common_word() {
    let mut dict = Dictionary::new();
    dict.matrix = flat_matrix(200);
    dict.add_word(WordEntry {
        surface: "今日".to_string(), reading: "きょう".to_string(),
        left_id: 1, right_id: 1, cost: 5000, pos: "名詞".to_string(),
    });
    dict.add_word(WordEntry {
        surface: "教".to_string(), reading: "きょう".to_string(),
        left_id: 1, right_id: 1, cost: 4800, pos: "名詞".to_string(),
    });
    let converter = ViterbiConverter::new(dict);
    assert_eq!(converter.convert_to_string("きょう"), "今日");
}

#[test]
fn test_katakana_fallback_with_long_vowel_mark() {
    let mut dict = Dictionary::new();
    dict.matrix = flat_matrix(200);
    let converter = ViterbiConverter::new(dict);
    let result = converter.convert_to_string("らーめん");
    assert_eq!(result, "ラーメン");
}

#[test]
fn test_katakana_fallback_with_particle() {
    let dict = create_test_dictionary();
    let converter = ViterbiConverter::new(dict);
    let result = converter.convert_to_string("きょうはらすと");
    assert!(result.contains("ラスト"), "カタカナ化未実施: {}", result);
    assert!(result.contains("今日") || result.contains("きょう"));
}

#[test]
fn test_katakana_fallback_disabled() {
    let mut dict = Dictionary::new();
    dict.matrix = ConnectionMatrix::new(10, 10);
    let mut converter = ViterbiConverter::new(dict);
    converter.enable_katakana_fallback = false;
    let result = converter.convert_to_string("らすと");
    assert_eq!(result, "らすと");
}

#[test]
fn test_n_best() {
    let dict = create_test_dictionary();
    let converter = ViterbiConverter::new(dict);
    let results = converter.n_best_strings("きょうはいいてんきです", 3);
    assert!(!results.is_empty(), "N-best候補が0件");
    assert!(results[0].contains("今日"));
    let unique: std::collections::HashSet<_> = results.iter().collect();
    assert_eq!(unique.len(), results.len());
}

#[test]
fn test_n_best_empty_input() {
    let dict = create_test_dictionary();
    let converter = ViterbiConverter::new(dict);
    assert!(converter.n_best("", 5).is_empty());
    assert!(converter.n_best("きょう", 0).is_empty());
}

#[test]
fn test_live_conversion_context() {
    let dict = create_test_dictionary();
    let converter = ViterbiConverter::new(dict);
    let mut context = LiveConversionContext::new(converter);
    context.add_hiragana("きょう");
    assert!(!context.get_conversion().is_empty());
    context.add_hiragana("は");
    let conversion = context.get_conversion();
    assert!(conversion.contains("今日") || conversion.contains("は"));
}

#[test]
fn n_best_first_is_the_best_conversion() {
    let dict = create_test_dictionary();
    let converter = ViterbiConverter::new(dict);
    let (best, cost) = converter.convert_with_cost("きょうはいいてんきです");
    let best_text: String = best.iter().map(|e| e.surface.as_str()).collect();
    let results = converter.n_best("きょうはいいてんきです", 4);
    assert!(!results.is_empty());
    let first_text: String = results[0].iter().map(|e| e.surface.as_str()).collect();
    assert_eq!(first_text, best_text);
    assert!(cost < i32::MAX);
}

#[test]
fn n_best_with_room_lists_every_surface() {
    let dict = create_test_dictionary();
    let converter = ViterbiConverter::new(dict);
    let few = converter.n_best_strings("きょう", 50);
    assert!(few.len() < 50);
    assert!(few.iter().any(|s| s == "今日"));
    let more = converter.n_best_strings("きょう", 60);
    assert_eq!(few, more);
}

#[test]
fn lattice_nodes_read_their_span() {
    let mut converter = ViterbiConverter::new(create_test_dictionary());
    converter.learn_hiragana("てん", 1);
    let input = "きょうはいいてんきです";
    let lattice = converter.build_lattice(input);
    assert_eq!(lattice.bos_index, 0);
    assert_eq!(lattice.eos_index, 1);
    assert!(lattice.nodes.len() > 2);
    for node in &lattice.nodes[2..] {
        assert!(node.start < node.end);
        assert!(input.is_char_boundary(node.start) && input.is_char_boundary(node.end));
        let entry = node.entry.as_ref().unwrap();
        assert_eq!(entry.reading, &input[node.start..node.end]);
    }
    assert!(lattice.nodes.iter().any(|n| n.entry.as_ref().map_or(false, |e| e.surface == "天気")));
    assert!(lattice.nodes.iter().any(|n| n.entry.as_ref().map_or(false, |e| e.surface == "てん")));
}

#[test]
fn n_best_readings_give_the_input_back() {
    let mut dict = create_test_dictionary();
    dict.matrix = flat_matrix(100);
    let converter = ViterbiConverter::new(dict);
    let input = "きょうはいいてんきです";
    let results = converter.n_best(input, 5);
    assert!(!results.is_empty());
    assert!(results.len() <= 5);
    for words in &results {
        let joined: String = words.iter().map(|w| w.reading.as_str()).collect();
        assert_eq!(joined, input);
    }
}
