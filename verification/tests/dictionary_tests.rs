use common::{CharCategory, ConnectionMatrix, Dictionary, TrieNode, WordEntry};

fn word(surface: &str, reading: &str, cost: i16) -> WordEntry {
    WordEntry {
        surface: surface.to_string(),
        reading: reading.to_string(),
        left_id: 1,
        right_id: 1,
        cost,
        pos: "名詞".to_string(),
    }
}

#[test]
fn test_trie_insert_and_search() {
    let mut trie = TrieNode::new();
    let entry = word("今日", "きょう", 5000);
    trie.insert("きょう", entry);
    let result = trie.search("きょう");
    assert!(result.is_some());
    assert_eq!(result.unwrap()[0].surface, "今日");
}

#[test]
fn test_common_prefix_search() {
    let mut trie = TrieNode::new();
    trie.insert("き", word("木", "き", 6000));
    trie.insert("きょ", word("虚", "きょ", 8000));
    trie.insert("きょう", word("今日", "きょう", 5000));
    let results = trie.common_prefix_search("きょうは");
    assert_eq!(results.len(), 3);
}

#[test]
fn test_char_category() {
    assert_eq!(CharCategory::of('あ'), CharCategory::Hiragana);
    assert_eq!(CharCategory::of('ア'), CharCategory::Katakana);
    assert_eq!(CharCategory::of('漢'), CharCategory::Kanji);
    assert_eq!(CharCategory::of('a'), CharCategory::Ascii);
    assert_eq!(CharCategory::of('5'), CharCategory::Digit);
}

#[test]
fn prefix_search_lengths_are_bytes() {
    let mut trie = TrieNode::new();
    trie.insert("き", word("木", "き", 6000));
    trie.insert("きょう", word("今日", "きょう", 5000));
    let results = trie.common_prefix_search("きょうは");
    let lens: Vec<usize> = results.iter().map(|(l, _)| *l).collect();
    assert_eq!(lens, vec![3, 9]);
}

#[test]
fn search_misses_a_prefix_that_is_not_a_word() {
    let mut trie = TrieNode::new();
    trie.insert("きょう", word("今日", "きょう", 5000));
    assert!(trie.search("きょ").is_none());
    assert!(trie.search("きょうは").is_none());
}

#[test]
fn matrix_set_then_get() {
    let mut m = ConnectionMatrix::new(3, 2);
    assert_eq!(m.costs.len(), 6);
    m.set(2, 1, -7);
    assert_eq!(m.get(2, 1), -7);
    assert_eq!(m.get(1, 1), 0);
    // outside the table nothing is stored and 0 is read
    m.set(9, 9, 5);
    assert_eq!(m.get(9, 9), 0);
    assert_eq!(m.costs.len(), 6);
}

#[test]
fn add_then_lookup_then_remove() {
    let mut d = Dictionary::new();
    d.add_word(word("記者", "きしゃ", 5000));
    d.add_word(word("汽車", "きしゃ", 5500));
    let found = d.lookup("きしゃ").unwrap();
    assert_eq!(found.len(), 2);
    assert_eq!(found[0].surface, "記者");
    assert_eq!(found[1].surface, "汽車");
    assert!(d.remove_word("きしゃ", "記者"));
    assert_eq!(d.lookup("きしゃ").unwrap().len(), 1);
    assert!(!d.remove_word("きしゃ", "記者"));
    assert!(d.remove_word("きしゃ", "汽車"));
    assert!(d.lookup("きしゃ").is_none());
}

#[test]
fn fuzzy_readings_within_one_edit() {
    let mut d = Dictionary::new();
    d.add_word(word("今日", "きょう", 5000));
    d.add_word(word("天気", "てんき", 5000));
    let hits = d.fuzzy_readings("きよう", 1);
    assert_eq!(hits.len(), 1);
    assert_eq!(hits[0], ("きょう".to_string(), 1));
}

#[test]
fn serialized_form_round_trip() {
    let mut d = Dictionary::new();
    d.add_word(word("記者", "きしゃ", 5000));
    d.add_word(word("汽車", "きしゃ", 5500));
    d.add_word(word("今日", "きょう", 5000));
    d.bos_id = 3;
    d.eos_id = 4;
    let s = d.to_serializable();
    assert_eq!(s.words.len(), 3);
    let back = Dictionary::from_serializable(s);
    assert_eq!(back.bos_id, 3);
    assert_eq!(back.eos_id, 4);
    let ks = back.lookup("きしゃ").unwrap();
    assert_eq!(ks.len(), 2);
    assert_eq!(ks[0].surface, "記者");
    assert_eq!(ks[1].surface, "汽車");
    assert_eq!(back.lookup("きょう").unwrap()[0].surface, "今日");
}
