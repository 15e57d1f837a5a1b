//! Cost adjustments and word classes used while building the lattice and
//! while choosing among conversions.

use vstd::prelude::*;
use crate::dictionary::WordEntry;
use crate::text::{chars_of, chars_eq, starts_with_str, seq_starts_with, string_from_chars, is_hiragana_letter, is_katakana_letter};

verus! {

/// Bonus given to each word of the built-in list of frequent words.
pub const COMMON_WORD_SEED_BONUS: i32 = 1500;

/// Largest bonus a learned (reading, surface) pair can get.
pub const UNIGRAM_BONUS_CAP: i32 = 6000;

/// Largest bonus a learned word-to-word connection can get.
pub const BIGRAM_BONUS_CAP: i32 = 3000;

/// Bonus for a use count: 1000 per use, at most 20000.
pub open spec fn bonus_of(freq: u32) -> i32 {
    if freq >= 20 {
        20000
    } else {
        (freq * 1000) as i32
    }
}

/// Turns a use count into a cost reduction.
pub fn frequency_to_bonus(freq: u32) -> (r: i32)
    ensures
        r == bonus_of(freq),
{
    if freq >= 20 {
        20000
    } else {
        (freq * 1000) as i32
    }
}

/// The built-in list of frequent (reading, surface) pairs.
pub open spec fn seed_pairs() -> Seq<(Seq<char>, Seq<char>)> {
    seq![
        ("あう"@, "会う"@),
        ("いう"@, "言う"@),
        ("おもう"@, "思う"@),
        ("みる"@, "見る"@),
        ("わたし"@, "私"@),
        ("にほん"@, "日本"@),
        ("かんじ"@, "漢字"@),
        ("ことば"@, "言葉"@),
    ]
}

/// A CJK unified ideograph (main block or extension A).
pub open spec fn is_kanji(c: char) -> bool {
    (0x4E00 <= (c as u32) && (c as u32) <= 0x9FFF) || (0x3400 <= (c as u32) && (c as u32) <= 0x4DBF)
}

fn kanji_char(c: char) -> (r: bool)
    ensures
        r == is_kanji(c),
{
    let u = c as u32;
    (0x4E00 <= u && u <= 0x9FFF) || (0x3400 <= u && u <= 0x4DBF)
}

/// Extra cost of a surface made of one kanji.
pub open spec fn kanji_penalty_of(surface: Seq<char>, penalty: i32) -> i32 {
    if surface.len() == 1 && is_kanji(surface[0]) {
        penalty
    } else {
        0
    }
}

/// `penalty` when the surface is a single kanji, else 0.
pub fn single_kanji_penalty(surface: &str, penalty: i32) -> (r: i32)
    ensures
        r == kanji_penalty_of(surface@, penalty),
{
    let cs = chars_of(surface);
    if cs.len() == 1 && kanji_char(cs[0]) {
        penalty
    } else {
        0
    }
}

/// Hiragana letters and the long vowel mark.
pub open spec fn is_kana_reading_char(c: char) -> bool {
    is_hiragana_letter(c) || c == 'ー'
}

/// Katakana letters and the long vowel mark.
pub open spec fn is_katakana_surface_char(c: char) -> bool {
    is_katakana_letter(c) || c == 'ー'
}

pub open spec fn all_kana_reading(s: Seq<char>) -> bool {
    forall|i: int| 0 <= i < s.len() ==> is_kana_reading_char(#[trigger] s[i])
}

pub open spec fn all_katakana(s: Seq<char>) -> bool {
    forall|i: int| 0 <= i < s.len() ==> is_katakana_surface_char(#[trigger] s[i])
}

/// Whether every character is hiragana or the long vowel mark.
pub fn is_all_hiragana(chars: &[char]) -> (r: bool)
    ensures
        r == all_kana_reading(chars@),
{
    let mut i: usize = 0;
    while i < chars.len()
        invariant
            i <= chars.len(),
            forall|j: int| 0 <= j < i ==> is_kana_reading_char(#[trigger] chars@[j]),
        decreases chars.len() - i,
    {
        let u = chars[i] as u32;
        if !((0x3041 <= u && u <= 0x3096) || chars[i] == 'ー') {
            return false;
        }
        i += 1;
    }
    true
}

fn is_all_katakana(chars: &[char]) -> (r: bool)
    ensures
        r == all_katakana(chars@),
{
    let mut i: usize = 0;
    while i < chars.len()
        invariant
            i <= chars.len(),
            forall|j: int| 0 <= j < i ==> is_katakana_surface_char(#[trigger] chars@[j]),
        decreases chars.len() - i,
    {
        let u = chars[i] as u32;
        if !((0x30A1 <= u && u <= 0x30F6) || chars[i] == 'ー') {
            return false;
        }
        i += 1;
    }
    true
}

/// Extra cost of a katakana proper noun: the dictionary lists many rare
/// katakana names cheaply, and they should not beat ordinary words.
pub open spec fn proper_noun_penalty_of(surface: Seq<char>, pos: Seq<char>) -> i32 {
    if seq_starts_with(pos, "名詞-固有名詞"@) && surface.len() > 0 && all_katakana(surface) {
        1000
    } else {
        0
    }
}

/// 1000 for a katakana proper noun, else 0.
pub fn katakana_proper_noun_penalty(surface: &str, pos: &str) -> (r: i32)
    ensures
        r == proper_noun_penalty_of(surface@, pos@),
{
    let p = chars_of(pos);
    let s = chars_of(surface);
    if starts_with_str(p.as_slice(), "名詞-固有名詞") && s.len() > 0 && is_all_katakana(s.as_slice()) {
        1000
    } else {
        0
    }
}

/// Extra cost of a symbol.
pub open spec fn symbol_penalty_of(surface: Seq<char>, pos: Seq<char>) -> i32 {
    if seq_starts_with(pos, "記号"@) {
        1000
    } else {
        0
    }
}

/// 1000 for a word whose part of speech is a symbol, else 0.
pub fn symbol_penalty(surface: &str, pos: &str) -> (r: i32)
    ensures
        r == symbol_penalty_of(surface@, pos@),
{
    let p = chars_of(pos);
    if starts_with_str(p.as_slice(), "記号") {
        1000
    } else {
        0
    }
}

/// A segment the conversion could not turn into a dictionary word: an
/// unknown word or a katakana fallback.
pub open spec fn failed_pos(pos: Seq<char>) -> bool {
    pos == "未知語"@ || pos == "カタカナ"@
}

/// Whether the segment is an unknown word or a katakana fallback.
pub fn is_failed_segment(e: &WordEntry) -> (r: bool)
    ensures
        r == failed_pos(e.pos@),
{
    let p = chars_of(e.pos.as_str());
    let a = chars_of("未知語");
    let b = chars_of("カタカナ");
    chars_eq(p.as_slice(), a.as_slice()) || chars_eq(p.as_slice(), b.as_slice())
}

/// One-character particles that stay in hiragana when typed alone.
pub open spec fn lone_particles() -> Seq<Seq<char>> {
    seq!["は"@, "が"@, "を"@, "に"@, "で"@, "と"@, "も"@, "へ"@, "の"@, "や"@, "か"@]
}

/// Whether the whole reading is one particle.
pub fn is_lone_particle(reading: &str) -> (r: bool)
    ensures
        r == lone_particles().contains(reading@),
{
    let list: [&str; 11] = ["は", "が", "を", "に", "で", "と", "も", "へ", "の", "や", "か"];
    let r = chars_of(reading);
    let mut i: usize = 0;
    while i < 11
        invariant
            i <= 11,
            r@ == reading@,
            forall|k: int| 0 <= k < 11 ==> (#[trigger] list@[k])@ == lone_particles()[k],
            forall|k: int| 0 <= k < i ==> lone_particles()[k] != reading@,
        decreases 11 - i,
    {
        let w = chars_of(list[i]);
        if chars_eq(r.as_slice(), w.as_slice()) {
            assert(lone_particles()[i as int] == reading@);
            return true;
        }
        i += 1;
    }
    proof {
        if lone_particles().contains(reading@) {
            let k = choose|k: int| 0 <= k < lone_particles().len() && lone_particles()[k] == reading@;
        }
    }
    false
}

/// Content words: nouns, verbs, adjectives and adverbs.
pub open spec fn content_pos(pos: Seq<char>) -> bool {
    seq_starts_with(pos, "名詞"@) || seq_starts_with(pos, "動詞"@) || seq_starts_with(pos, "形容詞"@)
        || seq_starts_with(pos, "副詞"@)
}

/// Whether the part of speech is that of a content word.
pub fn is_content_pos(pos: &str) -> (r: bool)
    ensures
        r == content_pos(pos@),
{
    let p = chars_of(pos);
    starts_with_str(p.as_slice(), "名詞") || starts_with_str(p.as_slice(), "動詞") || starts_with_str(
        p.as_slice(),
        "形容詞",
    ) || starts_with_str(p.as_slice(), "副詞")
}

/// The large or small counterpart of a kana that is often typed wrongly
/// (や↔ゃ, ゆ↔ゅ, よ↔ょ, つ↔っ, あ↔ぁ, ...).
pub open spec fn kana_pair(c: char) -> Option<char> {
    if c == 'や' { Some('ゃ') }
    else if c == 'ゃ' { Some('や') }
    else if c == 'ゆ' { Some('ゅ') }
    else if c == 'ゅ' { Some('ゆ') }
    else if c == 'よ' { Some('ょ') }
    else if c == 'ょ' { Some('よ') }
    else if c == 'つ' { Some('っ') }
    else if c == 'っ' { Some('つ') }
    else if c == 'あ' { Some('ぁ') }
    else if c == 'ぁ' { Some('あ') }
    else if c == 'い' { Some('ぃ') }
    else if c == 'ぃ' { Some('い') }
    else if c == 'う' { Some('ぅ') }
    else if c == 'ぅ' { Some('う') }
    else if c == 'え' { Some('ぇ') }
    else if c == 'ぇ' { Some('え') }
    else if c == 'お' { Some('ぉ') }
    else if c == 'ぉ' { Some('お') }
    else { None }
}

fn kana_pair_of(c: char) -> (r: Option<char>)
    ensures
        r == kana_pair(c),
{
    if c == 'や' { Some('ゃ') }
    else if c == 'ゃ' { Some('や') }
    else if c == 'ゆ' { Some('ゅ') }
    else if c == 'ゅ' { Some('ゆ') }
    else if c == 'よ' { Some('ょ') }
    else if c == 'ょ' { Some('よ') }
    else if c == 'つ' { Some('っ') }
    else if c == 'っ' { Some('つ') }
    else if c == 'あ' { Some('ぁ') }
    else if c == 'ぁ' { Some('あ') }
    else if c == 'い' { Some('ぃ') }
    else if c == 'ぃ' { Some('い') }
    else if c == 'う' { Some('ぅ') }
    else if c == 'ぅ' { Some('う') }
    else if c == 'え' { Some('ぇ') }
    else if c == 'ぇ' { Some('え') }
    else if c == 'お' { Some('ぉ') }
    else if c == 'ぉ' { Some('お') }
    else { None }
}

/// The one-edit variants of `w` at position `i`: the word without that
/// character (marked as a deletion), then, where the character has a small
/// or large counterpart, the word with it swapped.
pub open spec fn variants_at(w: Seq<char>, i: int) -> Seq<(Seq<char>, bool)> {
    seq![(w.remove(i), true)] + match kana_pair(w[i]) {
        Some(d) => seq![(w.update(i, d), false)],
        None => Seq::empty(),
    }
}

/// The variants at positions `0 .. n`, in order.
pub open spec fn variants_upto(w: Seq<char>, n: nat) -> Seq<(Seq<char>, bool)>
    decreases n,
{
    if n == 0 {
        Seq::empty()
    } else {
        variants_upto(w, (n - 1) as nat) + variants_at(w, n - 1)
    }
}

/// Spelling variants one edit away from `word`: each deletion of one
/// character and each swap of a kana for its small or large counterpart.
/// The flag marks deletions.
pub fn fuzzy_variants(word: &str) -> (r: Vec<(String, bool)>)
    ensures
        r@.map_values(|v: (String, bool)| (v.0@, v.1)) == variants_upto(word@, word@.len()),
{
    let w = chars_of(word);
    let mut out: Vec<(String, bool)> = Vec::new();
    let mut i: usize = 0;
    while i < w.len()
        invariant
            w@ == word@,
            i <= w.len(),
            out@.map_values(|v: (String, bool)| (v.0@, v.1)) == variants_upto(word@, i as nat),
        decreases w.len() - i,
    {
        let ghost before = out@.map_values(|v: (String, bool)| (v.0@, v.1));
        let mut del: Vec<char> = Vec::new();
        let mut k: usize = 0;
        while k < w.len()
            invariant
                i < w.len(),
                k <= w.len(),
                k <= i ==> del@ == w@.take(k as int),
                k > i ==> del@ == w@.take(i as int) + w@.subrange(i + 1, k as int),
            decreases w.len() - k,
        {
            if k != i {
                del.push(w[k]);
            }
            proof {
                if k < i {
                    assert(w@.take(k + 1) =~= w@.take(k as int).push(w@[k as int]));
                } else if k == i {
                    assert(w@.subrange(i + 1, k + 1) =~= Seq::<char>::empty());
                    assert(w@.take(i as int) + w@.subrange(i + 1, k + 1) =~= w@.take(k as int));
                } else {
                    assert(w@.subrange(i + 1, k + 1) =~= w@.subrange(i + 1, k as int).push(w@[k as int]));
                }
            }
            k += 1;
        }
        out.push((string_from_chars(del.as_slice()), true));
        match kana_pair_of(w[i]) {
            Some(d) => {
                let mut sw: Vec<char> = w.clone();
                sw.set(i, d);
                out.push((string_from_chars(sw.as_slice()), false));
            },
            None => {},
        }
        proof {
            assert(del@ =~= w@.remove(i as int));
            assert(out@.map_values(|v: (String, bool)| (v.0@, v.1)) =~= before + variants_at(word@, i as int));
        }
        i += 1;
    }
    out
}

} // verus!
