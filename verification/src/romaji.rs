//! Romaji to hiragana conversion by longest match over a rule table.

use vstd::prelude::*;
use crate::text::{ascii_lower, is_ascii_upper, chars_eq, chars_of, is_ascii_alpha, is_ascii_alphabetic, matches_at, string_from_chars, string_from_range, to_ascii_lower};

verus! {

/// Map built from a rule list; a later rule for the same key wins.
pub open spec fn table_map(e: Seq<(Seq<char>, Seq<char>)>) -> Map<Seq<char>, Seq<char>>
    decreases e.len(),
{
    if e.len() == 0 {
        Map::empty()
    } else {
        table_map(e.drop_last()).insert(e.last().0, e.last().1)
    }
}

/// Consonants that, doubled, produce the small tsu (sokuon).
pub open spec fn is_sokuon_consonant(c: char) -> bool {
    c == 'k' || c == 's' || c == 't' || c == 'p' || c == 'g' || c == 'z' || c == 'd' || c == 'b'
        || c == 'c' || c == 'h' || c == 'm' || c == 'r' || c == 'w' || c == 'f' || c == 'v'
        || c == 'j' || c == 'q' || c == 'y'
}

/// Letters after which a single `n` is not yet ん.
pub open spec fn is_n_continuation(c: char) -> bool {
    c == 'a' || c == 'i' || c == 'u' || c == 'e' || c == 'o' || c == 'y'
}

pub open spec fn has_rule(m: Map<Seq<char>, Seq<char>>, s: Seq<char>, i: int, l: int) -> bool {
    i + l <= s.len() && m.contains_key(s.subrange(i, i + l))
}

/// Length (4, 3, 2 or 1) of the longest rule key that starts at `i`; 0 if none.
pub open spec fn longest_rule(m: Map<Seq<char>, Seq<char>>, s: Seq<char>, i: int) -> int {
    if i + 4 <= s.len() && m.contains_key(s.subrange(i, i + 4)) {
        4
    } else if i + 3 <= s.len() && m.contains_key(s.subrange(i, i + 3)) {
        3
    } else if i + 2 <= s.len() && m.contains_key(s.subrange(i, i + 2)) {
        2
    } else if i + 1 <= s.len() && m.contains_key(s.subrange(i, i + 1)) {
        1
    } else {
        0
    }
}

/// Conversion of the (already lower-cased) input from position `i` on.
pub open spec fn convert_from(m: Map<Seq<char>, Seq<char>>, s: Seq<char>, i: nat) -> Seq<char>
    decreases s.len() - i,
{
    if i >= s.len() {
        Seq::empty()
    } else {
        let l = longest_rule(m, s, i as int);
        if l > 0 {
            m[s.subrange(i as int, i + l)] + convert_from(m, s, (i + l) as nat)
        } else if i + 1 < s.len() && s[i as int] == s[(i + 1) as int] && is_sokuon_consonant(s[i as int]) {
            seq!['っ'] + convert_from(m, s, i + 1)
        } else if s[i as int] == 'n' && i + 1 < s.len() && !is_n_continuation(s[(i + 1) as int]) {
            seq!['ん'] + convert_from(m, s, i + 1)
        } else {
            seq![s[i as int]] + convert_from(m, s, i + 1)
        }
    }
}

pub open spec fn lower_seq(s: Seq<char>) -> Seq<char> {
    s.map_values(|c: char| ascii_lower(c))
}

/// Number of ASCII letters at the end of `s`.
pub open spec fn trailing_alpha(s: Seq<char>) -> nat
    decreases s.len(),
{
    if s.len() > 0 && is_ascii_alpha(s.last()) {
        1 + trailing_alpha(s.drop_last())
    } else {
        0
    }
}

proof fn lemma_table_lookup(e: Seq<(Seq<char>, Seq<char>)>, k: Seq<char>)
    ensures
        (forall|i: int| 0 <= i < e.len() ==> e[i].0 != k) ==> !table_map(e).contains_key(k),
        forall|j: int|
            0 <= j < e.len() && e[j].0 == k && (forall|i: int| j < i < e.len() ==> e[i].0 != k)
                ==> table_map(e).contains_key(k) && table_map(e)[k] == e[j].1,
    decreases e.len(),
{
    if e.len() > 0 {
        let d = e.drop_last();
        lemma_table_lookup(d, k);
        assert forall|j: int|
            0 <= j < e.len() && e[j].0 == k && (forall|i: int| j < i < e.len() ==> e[i].0 != k)
            implies table_map(e).contains_key(k) && table_map(e)[k] == e[j].1 by {
            if j < e.len() - 1 {
                assert(d[j] == e[j]);
                assert forall|i: int| j < i < d.len() implies d[i].0 != k by {
                    assert(d[i] == e[i]);
                }
            }
        }
        if forall|i: int| 0 <= i < e.len() ==> e[i].0 != k {
            assert forall|i: int| 0 <= i < d.len() implies d[i].0 != k by {
                assert(d[i] == e[i]);
            }
        }
    }
}

pub(crate) proof fn lemma_trailing_alpha_bound(s: Seq<char>)
    ensures
        trailing_alpha(s) <= s.len(),
        forall|j: int| s.len() - trailing_alpha(s) <= j < s.len() ==> is_ascii_alpha(#[trigger] s[j]),
        trailing_alpha(s) < s.len() ==> !is_ascii_alpha(s[s.len() - trailing_alpha(s) - 1]),
    decreases s.len(),
{
    if s.len() > 0 && is_ascii_alpha(s.last()) {
        let d = s.drop_last();
        lemma_trailing_alpha_bound(d);
        assert forall|j: int| s.len() - trailing_alpha(s) <= j < s.len() implies is_ascii_alpha(#[trigger] s[j]) by {
            if j < s.len() - 1 {
                assert(d[j] == s[j]);
            }
        }
        if trailing_alpha(s) < s.len() {
            assert(d[d.len() - trailing_alpha(d) - 1] == s[s.len() - trailing_alpha(s) - 1]);
        }
    }
}

/// Appends all characters of `src` to `out`.
pub fn push_all(out: &mut Vec<char>, src: &[char])
    ensures
        final(out)@ == old(out)@ + src@,
{
    let mut i: usize = 0;
    while i < src.len()
        invariant
            i <= src.len(),
            out@ == old(out)@ + src@.take(i as int),
        decreases src.len() - i,
    {
        out.push(src[i]);
        assert(src@.take(i + 1) == src@.take(i as int).push(src@[i as int]));
        i += 1;
    }
    assert(src@.take(src.len() as int) == src@);
}

/// Rules 0 to 24 of the table.
pub open spec fn rules_chunk_0() -> Seq<(Seq<char>, Seq<char>)> {
    seq![
        ("a"@, "あ"@),
        ("i"@, "い"@),
        ("u"@, "う"@),
        ("e"@, "え"@),
        ("o"@, "お"@),
        ("ka"@, "か"@),
        ("ki"@, "き"@),
        ("ku"@, "く"@),
        ("ke"@, "け"@),
        ("ko"@, "こ"@),
        ("ga"@, "が"@),
        ("gi"@, "ぎ"@),
        ("gu"@, "ぐ"@),
        ("ge"@, "げ"@),
        ("go"@, "ご"@),
        ("sa"@, "さ"@),
        ("si"@, "し"@),
        ("shi"@, "し"@),
        ("su"@, "す"@),
        ("se"@, "せ"@),
        ("so"@, "そ"@),
        ("za"@, "ざ"@),
        ("zi"@, "じ"@),
        ("ji"@, "じ"@),
        ("zu"@, "ず"@),
    ]
}

/// Rules 25 to 49 of the table.
pub open spec fn rules_chunk_1() -> Seq<(Seq<char>, Seq<char>)> {
    seq![
        ("ze"@, "ぜ"@),
        ("zo"@, "ぞ"@),
        ("ta"@, "た"@),
        ("ti"@, "ち"@),
        ("chi"@, "ち"@),
        ("tu"@, "つ"@),
        ("tsu"@, "つ"@),
        ("te"@, "て"@),
        ("to"@, "と"@),
        ("da"@, "だ"@),
        ("di"@, "ぢ"@),
        ("du"@, "づ"@),
        ("de"@, "で"@),
        ("do"@, "ど"@),
        ("na"@, "な"@),
        ("ni"@, "に"@),
        ("nu"@, "ぬ"@),
        ("ne"@, "ね"@),
        ("no"@, "の"@),
        ("ha"@, "は"@),
        ("hi"@, "ひ"@),
        ("hu"@, "ふ"@),
        ("fu"@, "ふ"@),
        ("he"@, "へ"@),
        ("ho"@, "ほ"@),
    ]
}

/// Rules 50 to 74 of the table.
pub open spec fn rules_chunk_2() -> Seq<(Seq<char>, Seq<char>)> {
    seq![
        ("ba"@, "ば"@),
        ("bi"@, "び"@),
        ("bu"@, "ぶ"@),
        ("be"@, "べ"@),
        ("bo"@, "ぼ"@),
        ("pa"@, "ぱ"@),
        ("pi"@, "ぴ"@),
        ("pu"@, "ぷ"@),
        ("pe"@, "ぺ"@),
        ("po"@, "ぽ"@),
        ("ma"@, "ま"@),
        ("mi"@, "み"@),
        ("mu"@, "む"@),
        ("me"@, "め"@),
        ("mo"@, "も"@),
        ("ya"@, "や"@),
        ("yi"@, "い"@),
        ("yu"@, "ゆ"@),
        ("ye"@, "いぇ"@),
        ("yo"@, "よ"@),
        ("ra"@, "ら"@),
        ("ri"@, "り"@),
        ("ru"@, "る"@),
        ("re"@, "れ"@),
        ("ro"@, "ろ"@),
    ]
}

/// Rules 75 to 99 of the table.
pub open spec fn rules_chunk_3() -> Seq<(Seq<char>, Seq<char>)> {
    seq![
        ("wa"@, "わ"@),
        ("wi"@, "うぃ"@),
        ("wu"@, "う"@),
        ("we"@, "うぇ"@),
        ("wo"@, "を"@),
        ("nn"@, "ん"@),
        ("nna"@, "んな"@),
        ("nni"@, "んに"@),
        ("nnu"@, "んぬ"@),
        ("nne"@, "んね"@),
        ("nno"@, "んの"@),
        ("nnya"@, "んにゃ"@),
        ("nnyi"@, "んにぃ"@),
        ("nnyu"@, "んにゅ"@),
        ("nnye"@, "んにぇ"@),
        ("nnyo"@, "んにょ"@),
        ("kya"@, "きゃ"@),
        ("kyi"@, "きぃ"@),
        ("kyu"@, "きゅ"@),
        ("kye"@, "きぇ"@),
        ("kyo"@, "きょ"@),
        ("gya"@, "ぎゃ"@),
        ("gyi"@, "ぎぃ"@),
        ("gyu"@, "ぎゅ"@),
        ("gye"@, "ぎぇ"@),
    ]
}

/// Rules 100 to 124 of the table.
pub open spec fn rules_chunk_4() -> Seq<(Seq<char>, Seq<char>)> {
    seq![
        ("gyo"@, "ぎょ"@),
        ("sya"@, "しゃ"@),
        ("sha"@, "しゃ"@),
        ("syi"@, "しぃ"@),
        ("syu"@, "しゅ"@),
        ("shu"@, "しゅ"@),
        ("sye"@, "しぇ"@),
        ("she"@, "しぇ"@),
        ("syo"@, "しょ"@),
        ("sho"@, "しょ"@),
        ("ja"@, "じゃ"@),
        ("jya"@, "じゃ"@),
        ("ji"@, "じ"@),
        ("jyi"@, "じぃ"@),
        ("ju"@, "じゅ"@),
        ("jyu"@, "じゅ"@),
        ("je"@, "じぇ"@),
        ("jye"@, "じぇ"@),
        ("jo"@, "じょ"@),
        ("jyo"@, "じょ"@),
        ("cha"@, "ちゃ"@),
        ("cya"@, "ちゃ"@),
        ("chi"@, "ち"@),
        ("cyi"@, "ちぃ"@),
        ("chu"@, "ちゅ"@),
    ]
}

/// Rules 125 to 149 of the table.
pub open spec fn rules_chunk_5() -> Seq<(Seq<char>, Seq<char>)> {
    seq![
        ("cyu"@, "ちゅ"@),
        ("che"@, "ちぇ"@),
        ("cye"@, "ちぇ"@),
        ("cho"@, "ちょ"@),
        ("cyo"@, "ちょ"@),
        ("nya"@, "にゃ"@),
        ("nyi"@, "にぃ"@),
        ("nyu"@, "にゅ"@),
        ("nye"@, "にぇ"@),
        ("nyo"@, "にょ"@),
        ("hya"@, "ひゃ"@),
        ("hyi"@, "ひぃ"@),
        ("hyu"@, "ひゅ"@),
        ("hye"@, "ひぇ"@),
        ("hyo"@, "ひょ"@),
        ("bya"@, "びゃ"@),
        ("byi"@, "びぃ"@),
        ("byu"@, "びゅ"@),
        ("bye"@, "びぇ"@),
        ("byo"@, "びょ"@),
        ("pya"@, "ぴゃ"@),
        ("pyi"@, "ぴぃ"@),
        ("pyu"@, "ぴゅ"@),
        ("pye"@, "ぴぇ"@),
        ("pyo"@, "ぴょ"@),
    ]
}

/// Rules 150 to 174 of the table.
pub open spec fn rules_chunk_6() -> Seq<(Seq<char>, Seq<char>)> {
    seq![
        ("mya"@, "みゃ"@),
        ("myi"@, "みぃ"@),
        ("myu"@, "みゅ"@),
        ("mye"@, "みぇ"@),
        ("myo"@, "みょ"@),
        ("rya"@, "りゃ"@),
        ("ryi"@, "りぃ"@),
        ("ryu"@, "りゅ"@),
        ("rye"@, "りぇ"@),
        ("ryo"@, "りょ"@),
        ("fa"@, "ふぁ"@),
        ("fi"@, "ふぃ"@),
        ("fe"@, "ふぇ"@),
        ("fo"@, "ふぉ"@),
        ("fya"@, "ふゃ"@),
        ("fyu"@, "ふゅ"@),
        ("fyo"@, "ふょ"@),
        ("va"@, "ゔぁ"@),
        ("vi"@, "ゔぃ"@),
        ("vu"@, "ゔ"@),
        ("ve"@, "ゔぇ"@),
        ("vo"@, "ゔぉ"@),
        ("tsa"@, "つぁ"@),
        ("tsi"@, "つぃ"@),
        ("tse"@, "つぇ"@),
    ]
}

/// Rules 175 to 199 of the table.
pub open spec fn rules_chunk_7() -> Seq<(Seq<char>, Seq<char>)> {
    seq![
        ("tso"@, "つぉ"@),
        ("tha"@, "てゃ"@),
        ("thi"@, "てぃ"@),
        ("thu"@, "てゅ"@),
        ("the"@, "てぇ"@),
        ("tho"@, "てょ"@),
        ("dha"@, "でゃ"@),
        ("dhi"@, "でぃ"@),
        ("dhu"@, "でゅ"@),
        ("dhe"@, "でぇ"@),
        ("dho"@, "でょ"@),
        ("twu"@, "とぅ"@),
        ("dwu"@, "どぅ"@),
        ("wha"@, "うぁ"@),
        ("whi"@, "うぃ"@),
        ("whu"@, "う"@),
        ("whe"@, "うぇ"@),
        ("who"@, "うぉ"@),
        ("qa"@, "くぁ"@),
        ("qi"@, "くぃ"@),
        ("qu"@, "く"@),
        ("qe"@, "くぇ"@),
        ("qo"@, "くぉ"@),
        ("ca"@, "か"@),
        ("ci"@, "し"@),
    ]
}

/// Rules 200 to 224 of the table.
pub open spec fn rules_chunk_8() -> Seq<(Seq<char>, Seq<char>)> {
    seq![
        ("cu"@, "く"@),
        ("ce"@, "せ"@),
        ("co"@, "こ"@),
        ("xa"@, "ぁ"@),
        ("xi"@, "ぃ"@),
        ("xu"@, "ぅ"@),
        ("xe"@, "ぇ"@),
        ("xo"@, "ぉ"@),
        ("la"@, "ぁ"@),
        ("li"@, "ぃ"@),
        ("lu"@, "ぅ"@),
        ("le"@, "ぇ"@),
        ("lo"@, "ぉ"@),
        ("xya"@, "ゃ"@),
        ("xyu"@, "ゅ"@),
        ("xyo"@, "ょ"@),
        ("lya"@, "ゃ"@),
        ("lyu"@, "ゅ"@),
        ("lyo"@, "ょ"@),
        ("xtu"@, "っ"@),
        ("ltu"@, "っ"@),
        ("xtsu"@, "っ"@),
        ("ltsu"@, "っ"@),
        ("xwa"@, "ゎ"@),
        ("lwa"@, "ゎ"@),
    ]
}

/// Rules 225 to 249 of the table.
pub open spec fn rules_chunk_9() -> Seq<(Seq<char>, Seq<char>)> {
    seq![
        ("xka"@, "ゕ"@),
        ("xke"@, "ゖ"@),
        ("-"@, "ー"@),
        (","@, "、"@),
        ("."@, "。"@),
        ("?"@, "？"@),
        ("!"@, "！"@),
        ("["@, "「"@),
        ("]"@, "」"@),
        ("~"@, "〜"@),
        ("zya"@, "じゃ"@),
        ("zyi"@, "じぃ"@),
        ("zyu"@, "じゅ"@),
        ("zye"@, "じぇ"@),
        ("zyo"@, "じょ"@),
        ("tya"@, "ちゃ"@),
        ("tyi"@, "ちぃ"@),
        ("tyu"@, "ちゅ"@),
        ("tye"@, "ちぇ"@),
        ("tyo"@, "ちょ"@),
        ("dya"@, "ぢゃ"@),
        ("dyi"@, "ぢぃ"@),
        ("dyu"@, "ぢゅ"@),
        ("dye"@, "ぢぇ"@),
        ("dyo"@, "ぢょ"@),
    ]
}

/// The rule table of a new converter: Hepburn, Kunrei and MS-IME
/// spellings, small kana with x/l, and a few punctuation marks.
pub open spec fn default_rules() -> Seq<(Seq<char>, Seq<char>)> {
    rules_chunk_0() + rules_chunk_1() + rules_chunk_2() + rules_chunk_3() + rules_chunk_4() + rules_chunk_5()
        + rules_chunk_6() + rules_chunk_7() + rules_chunk_8() + rules_chunk_9()
}

/// Romaji to hiragana converter.
pub struct RomajiConverter {
    entries: Vec<(Vec<char>, Vec<char>)>,
}

impl View for RomajiConverter {
    type V = Map<Seq<char>, Seq<char>>;

    open spec fn view(&self) -> Map<Seq<char>, Seq<char>> {
        table_map(self.rules())
    }
}

impl RomajiConverter {
    /// The rule list as sequences of characters.
    pub closed spec fn rules(&self) -> Seq<(Seq<char>, Seq<char>)> {
        self.entries@.map_values(|p: (Vec<char>, Vec<char>)| (p.0@, p.1@))
    }

    /// The conversion of `romaji`: upper case is read as lower case, then the
    /// longest rule wins, a doubled consonant gives っ and a lone `n` before a
    /// consonant gives ん.
    pub open spec fn spec_convert(&self, romaji: Seq<char>) -> Seq<char> {
        convert_from(self@, lower_seq(romaji), 0)
    }

    fn add(&mut self, key: &str, kana: &str)
        ensures
            final(self).rules() == old(self).rules().push((key@, kana@)),
            final(self)@ == old(self)@.insert(key@, kana@),
    {
        let k = chars_of(key);
        let v = chars_of(kana);
        let ghost old_rules = self.rules();
        self.entries.push((k, v));
        assert(self.rules() =~= old_rules.push((key@, kana@)));
        assert(self.rules().drop_last() =~= old_rules);
    }

    /// Index of the rule (the last one) whose key is `text[start .. start + len]`.
    fn find_rule(&self, text: &[char], start: usize, len: usize) -> (r: Option<usize>)
        requires
            start + len <= text.len(),
        ensures
            r is None ==> !self@.contains_key(text@.subrange(start as int, start + len)),
            r matches Some(j) ==> j < self.entries@.len() && self@.contains_key(
                text@.subrange(start as int, start + len),
            ) && self@[text@.subrange(start as int, start + len)] == self.entries@[j as int].1@,
    {
        let ghost key = text@.subrange(start as int, start + len);
        let ghost e = self.rules();
        let mut j: usize = self.entries.len();
        while j > 0
            invariant
                j <= self.entries@.len(),
                e == self.rules(),
                e.len() == self.entries@.len(),
                start + len <= text.len(),
                key == text@.subrange(start as int, start + len),
                forall|i: int| j <= i < e.len() ==> e[i].0 != key,
            decreases j,
        {
            j -= 1;
            let k = &self.entries[j].0;
            if k.len() == len && matches_at(k.as_slice(), text, start) {
                proof {
                    lemma_table_lookup(e, key);
                    assert(e[j as int].0 == key);
                }
                return Some(j);
            }
            assert(e[j as int].0 != key);
        }
        proof {
            lemma_table_lookup(e, key);
        }
        None
    }

    /// Longest rule at `i` (4, 3, 2 or 1 characters).
    fn longest_at(&self, s: &[char], i: usize) -> (r: Option<(usize, usize)>)
        requires
            i < s.len(),
        ensures
            r is None ==> longest_rule(self@, s@, i as int) == 0,
            r matches Some(p) ==> p.0 == longest_rule(self@, s@, i as int) && p.0 > 0 && p.1
                < self.entries@.len() && self.entries@[p.1 as int].1@ == self@[s@.subrange(
                i as int,
                i + p.0,
            )],
    {
        let mut len: usize = 4;
        while len > 0
            invariant
                len <= 4,
                i < s.len(),
                forall|l: int| len < l <= 4 ==> !#[trigger] has_rule(self@, s@, i as int, l),
            decreases len,
        {
            if len <= s.len() - i {
                match self.find_rule(s, i, len) {
                    Some(j) => {
                        assert(has_rule(self@, s@, i as int, len as int));
                        proof {
                            if len < 4 {
                                assert(!has_rule(self@, s@, i as int, 4));
                            }
                            if len < 3 {
                                assert(!has_rule(self@, s@, i as int, 3));
                            }
                            if len < 2 {
                                assert(!has_rule(self@, s@, i as int, 2));
                            }
                        }
                        return Some((len, j));
                    },
                    None => {},
                }
            }
            assert(!has_rule(self@, s@, i as int, len as int));
            len -= 1;
        }
        assert(!has_rule(self@, s@, i as int, 1));
        assert(!has_rule(self@, s@, i as int, 2));
        assert(!has_rule(self@, s@, i as int, 3));
        assert(!has_rule(self@, s@, i as int, 4));
        None
    }

    /// Converts romaji to hiragana.
    ///
    /// Upper case is treated as lower case.
    pub fn convert(&self, romaji: &str) -> (r: String)
        ensures
            r@ == self.spec_convert(romaji@),
    {
        let raw = chars_of(romaji);
        let mut chars: Vec<char> = Vec::new();
        let mut k: usize = 0;
        while k < raw.len()
            invariant
                k <= raw.len(),
                raw@ == romaji@,
                chars@ == lower_seq(raw@.take(k as int)),
            decreases raw.len() - k,
        {
            chars.push(to_ascii_lower(raw[k]));
            assert(raw@.take(k + 1) == raw@.take(k as int).push(raw@[k as int]));
            k += 1;
        }
        assert(raw@.take(raw.len() as int) == raw@);
        let out = self.convert_chars(&chars);
        string_from_chars(&out)
    }

    /// Converts lower-cased romaji characters.
    pub fn convert_chars(&self, chars: &[char]) -> (out: Vec<char>)
        ensures
            out@ == convert_from(self@, chars@, 0),
    {
        let ghost s = chars@;
        let mut out: Vec<char> = Vec::new();
        let mut i: usize = 0;
        while i < chars.len()
            invariant
                i <= chars.len(),
                s == chars@,
                convert_from(self@, s, 0) == out@ + convert_from(self@, s, i as nat),
            decreases chars.len() - i,
        {
            let ghost before = out@;
            match self.longest_at(chars, i) {
                Some((len, j)) => {
                    push_all(&mut out, self.entries[j].1.as_slice());
                    proof {
                        assert(convert_from(self@, s, i as nat) == self@[s.subrange(i as int, i + len)] + convert_from(self@, s, (i + len) as nat));
                        assert(out@ + convert_from(self@, s, (i + len) as nat) == before + convert_from(self@, s, i as nat));
                    }
                    i += len;
                },
                None => {
                    let c = chars[i];
                    let has_next = i + 1 < chars.len();
                    let next = if has_next { chars[i + 1] } else { ' ' };
                    if has_next && c == next && (c == 'k' || c == 's' || c == 't' || c == 'p'
                        || c == 'g' || c == 'z' || c == 'd' || c == 'b' || c == 'c' || c == 'h'
                        || c == 'm' || c == 'r' || c == 'w' || c == 'f' || c == 'v' || c == 'j'
                        || c == 'q' || c == 'y') {
                        out.push('っ');
                    } else if c == 'n' && has_next && !(next == 'a' || next == 'i' || next == 'u'
                        || next == 'e' || next == 'o' || next == 'y') {
                        out.push('ん');
                    } else {
                        out.push(c);
                    }
                    proof {
                        assert(out@ + convert_from(self@, s, (i + 1) as nat) == before + convert_from(self@, s, i as nat));
                    }
                    i += 1;
                },
            }
        }
        assert(out@ + convert_from(self@, s, i as nat) == out@);
        out
    }

    /// Splits a romaji buffer into settled hiragana and the trailing romaji
    /// that may still form a mora.
    ///
    /// `pending` is the run of ASCII letters at the end of the conversion;
    /// `settled` is everything before it.
    pub fn split(&self, romaji: &str) -> (r: (String, String))
        ensures
            ({
                let c = self.spec_convert(romaji@);
                let k = c.len() - trailing_alpha(c);
                r.0@ == c.take(k) && r.1@ == c.skip(k)
            }),
    {
        let converted = self.convert(romaji);
        let v = chars_of(converted.as_str());
        proof {
            lemma_trailing_alpha_bound(v@);
        }
        let mut k: usize = v.len();
        while k > 0 && is_ascii_alphabetic(v[k - 1])
            invariant
                k <= v.len(),
                v.len() - trailing_alpha(v@) <= k,
                trailing_alpha(v@) <= v.len(),
                forall|j: int| v.len() - trailing_alpha(v@) <= j < v.len() ==> is_ascii_alpha(#[trigger] v@[j]),
                trailing_alpha(v@) < v.len() ==> !is_ascii_alpha(v@[v.len() - trailing_alpha(v@) - 1]),
            decreases k,
        {
            k -= 1;
        }
        assert(k == v.len() - trailing_alpha(v@));
        let settled = string_from_range(v.as_slice(), 0, k);
        let pending = string_from_range(v.as_slice(), k, v.len());
        (settled, pending)
    }

    /// Builds the converter with its rule table (Hepburn, Kunrei and
    /// MS-IME spellings, small kana with x/l, and a few punctuation marks).
    pub fn new() -> (r: Self)
        ensures
            r@ == table_map(default_rules()),
    {
        let mut r = RomajiConverter { entries: Vec::new() };
        assert(r.rules() =~= Seq::<(Seq<char>, Seq<char>)>::empty());
        r.add_rules_0();
        r.add_rules_1();
        r.add_rules_2();
        r.add_rules_3();
        r.add_rules_4();
        r.add_rules_5();
        r.add_rules_6();
        r.add_rules_7();
        r.add_rules_8();
        r.add_rules_9();
        assert(r.rules() =~= default_rules());
        r
    }

    fn add_rules_0(&mut self)
        ensures
            final(self).rules() == old(self).rules() + rules_chunk_0(),
    {
        let ghost start = self.rules();
        self.add("a", "あ");
        self.add("i", "い");
        self.add("u", "う");
        self.add("e", "え");
        self.add("o", "お");
        self.add("ka", "か");
        self.add("ki", "き");
        self.add("ku", "く");
        self.add("ke", "け");
        self.add("ko", "こ");
        self.add("ga", "が");
        self.add("gi", "ぎ");
        self.add("gu", "ぐ");
        self.add("ge", "げ");
        self.add("go", "ご");
        self.add("sa", "さ");
        self.add("si", "し");
        self.add("shi", "し");
        self.add("su", "す");
        self.add("se", "せ");
        self.add("so", "そ");
        self.add("za", "ざ");
        self.add("zi", "じ");
        self.add("ji", "じ");
        self.add("zu", "ず");
        assert(self.rules() =~= start + rules_chunk_0());
    }

    fn add_rules_1(&mut self)
        ensures
            final(self).rules() == old(self).rules() + rules_chunk_1(),
    {
        let ghost start = self.rules();
        self.add("ze", "ぜ");
        self.add("zo", "ぞ");
        self.add("ta", "た");
        self.add("ti", "ち");
        self.add("chi", "ち");
        self.add("tu", "つ");
        self.add("tsu", "つ");
        self.add("te", "て");
        self.add("to", "と");
        self.add("da", "だ");
        self.add("di", "ぢ");
        self.add("du", "づ");
        self.add("de", "で");
        self.add("do", "ど");
        self.add("na", "な");
        self.add("ni", "に");
        self.add("nu", "ぬ");
        self.add("ne", "ね");
        self.add("no", "の");
        self.add("ha", "は");
        self.add("hi", "ひ");
        self.add("hu", "ふ");
        self.add("fu", "ふ");
        self.add("he", "へ");
        self.add("ho", "ほ");
        assert(self.rules() =~= start + rules_chunk_1());
    }

    fn add_rules_2(&mut self)
        ensures
            final(self).rules() == old(self).rules() + rules_chunk_2(),
    {
        let ghost start = self.rules();
        self.add("ba", "ば");
        self.add("bi", "び");
        self.add("bu", "ぶ");
        self.add("be", "べ");
        self.add("bo", "ぼ");
        self.add("pa", "ぱ");
        self.add("pi", "ぴ");
        self.add("pu", "ぷ");
        self.add("pe", "ぺ");
        self.add("po", "ぽ");
        self.add("ma", "ま");
        self.add("mi", "み");
        self.add("mu", "む");
        self.add("me", "め");
        self.add("mo", "も");
        self.add("ya", "や");
        self.add("yi", "い");
        self.add("yu", "ゆ");
        self.add("ye", "いぇ");
        self.add("yo", "よ");
        self.add("ra", "ら");
        self.add("ri", "り");
        self.add("ru", "る");
        self.add("re", "れ");
        self.add("ro", "ろ");
        assert(self.rules() =~= start + rules_chunk_2());
    }

    fn add_rules_3(&mut self)
        ensures
            final(self).rules() == old(self).rules() + rules_chunk_3(),
    {
        let ghost start = self.rules();
        self.add("wa", "わ");
        self.add("wi", "うぃ");
        self.add("wu", "う");
        self.add("we", "うぇ");
        self.add("wo", "を");
        self.add("nn", "ん");
        self.add("nna", "んな");
        self.add("nni", "んに");
        self.add("nnu", "んぬ");
        self.add("nne", "んね");
        self.add("nno", "んの");
        self.add("nnya", "んにゃ");
        self.add("nnyi", "んにぃ");
        self.add("nnyu", "んにゅ");
        self.add("nnye", "んにぇ");
        self.add("nnyo", "んにょ");
        self.add("kya", "きゃ");
        self.add("kyi", "きぃ");
        self.add("kyu", "きゅ");
        self.add("kye", "きぇ");
        self.add("kyo", "きょ");
        self.add("gya", "ぎゃ");
        self.add("gyi", "ぎぃ");
        self.add("gyu", "ぎゅ");
        self.add("gye", "ぎぇ");
        assert(self.rules() =~= start + rules_chunk_3());
    }

    fn add_rules_4(&mut self)
        ensures
            final(self).rules() == old(self).rules() + rules_chunk_4(),
    {
        let ghost start = self.rules();
        self.add("gyo", "ぎょ");
        self.add("sya", "しゃ");
        self.add("sha", "しゃ");
        self.add("syi", "しぃ");
        self.add("syu", "しゅ");
        self.add("shu", "しゅ");
        self.add("sye", "しぇ");
        self.add("she", "しぇ");
        self.add("syo", "しょ");
        self.add("sho", "しょ");
        self.add("ja", "じゃ");
        self.add("jya", "じゃ");
        self.add("ji", "じ");
        self.add("jyi", "じぃ");
        self.add("ju", "じゅ");
        self.add("jyu", "じゅ");
        self.add("je", "じぇ");
        self.add("jye", "じぇ");
        self.add("jo", "じょ");
        self.add("jyo", "じょ");
        self.add("cha", "ちゃ");
        self.add("cya", "ちゃ");
        self.add("chi", "ち");
        self.add("cyi", "ちぃ");
        self.add("chu", "ちゅ");
        assert(self.rules() =~= start + rules_chunk_4());
    }

    fn add_rules_5(&mut self)
        ensures
            final(self).rules() == old(self).rules() + rules_chunk_5(),
    {
        let ghost start = self.rules();
        self.add("cyu", "ちゅ");
        self.add("che", "ちぇ");
        self.add("cye", "ちぇ");
        self.add("cho", "ちょ");
        self.add("cyo", "ちょ");
        self.add("nya", "にゃ");
        self.add("nyi", "にぃ");
        self.add("nyu", "にゅ");
        self.add("nye", "にぇ");
        self.add("nyo", "にょ");
        self.add("hya", "ひゃ");
        self.add("hyi", "ひぃ");
        self.add("hyu", "ひゅ");
        self.add("hye", "ひぇ");
        self.add("hyo", "ひょ");
        self.add("bya", "びゃ");
        self.add("byi", "びぃ");
        self.add("byu", "びゅ");
        self.add("bye", "びぇ");
        self.add("byo", "びょ");
        self.add("pya", "ぴゃ");
        self.add("pyi", "ぴぃ");
        self.add("pyu", "ぴゅ");
        self.add("pye", "ぴぇ");
        self.add("pyo", "ぴょ");
        assert(self.rules() =~= start + rules_chunk_5());
    }

    fn add_rules_6(&mut self)
        ensures
            final(self).rules() == old(self).rules() + rules_chunk_6(),
    {
        let ghost start = self.rules();
        self.add("mya", "みゃ");
        self.add("myi", "みぃ");
        self.add("myu", "みゅ");
        self.add("mye", "みぇ");
        self.add("myo", "みょ");
        self.add("rya", "りゃ");
        self.add("ryi", "りぃ");
        self.add("ryu", "りゅ");
        self.add("rye", "りぇ");
        self.add("ryo", "りょ");
        self.add("fa", "ふぁ");
        self.add("fi", "ふぃ");
        self.add("fe", "ふぇ");
        self.add("fo", "ふぉ");
        self.add("fya", "ふゃ");
        self.add("fyu", "ふゅ");
        self.add("fyo", "ふょ");
        self.add("va", "ゔぁ");
        self.add("vi", "ゔぃ");
        self.add("vu", "ゔ");
        self.add("ve", "ゔぇ");
        self.add("vo", "ゔぉ");
        self.add("tsa", "つぁ");
        self.add("tsi", "つぃ");
        self.add("tse", "つぇ");
        assert(self.rules() =~= start + rules_chunk_6());
    }

    fn add_rules_7(&mut self)
        ensures
            final(self).rules() == old(self).rules() + rules_chunk_7(),
    {
        let ghost start = self.rules();
        self.add("tso", "つぉ");
        self.add("tha", "てゃ");
        self.add("thi", "てぃ");
        self.add("thu", "てゅ");
        self.add("the", "てぇ");
        self.add("tho", "てょ");
        self.add("dha", "でゃ");
        self.add("dhi", "でぃ");
        self.add("dhu", "でゅ");
        self.add("dhe", "でぇ");
        self.add("dho", "でょ");
        self.add("twu", "とぅ");
        self.add("dwu", "どぅ");
        self.add("wha", "うぁ");
        self.add("whi", "うぃ");
        self.add("whu", "う");
        self.add("whe", "うぇ");
        self.add("who", "うぉ");
        self.add("qa", "くぁ");
        self.add("qi", "くぃ");
        self.add("qu", "く");
        self.add("qe", "くぇ");
        self.add("qo", "くぉ");
        self.add("ca", "か");
        self.add("ci", "し");
        assert(self.rules() =~= start + rules_chunk_7());
    }

    fn add_rules_8(&mut self)
        ensures
            final(self).rules() == old(self).rules() + rules_chunk_8(),
    {
        let ghost start = self.rules();
        self.add("cu", "く");
        self.add("ce", "せ");
        self.add("co", "こ");
        self.add("xa", "ぁ");
        self.add("xi", "ぃ");
        self.add("xu", "ぅ");
        self.add("xe", "ぇ");
        self.add("xo", "ぉ");
        self.add("la", "ぁ");
        self.add("li", "ぃ");
        self.add("lu", "ぅ");
        self.add("le", "ぇ");
        self.add("lo", "ぉ");
        self.add("xya", "ゃ");
        self.add("xyu", "ゅ");
        self.add("xyo", "ょ");
        self.add("lya", "ゃ");
        self.add("lyu", "ゅ");
        self.add("lyo", "ょ");
        self.add("xtu", "っ");
        self.add("ltu", "っ");
        self.add("xtsu", "っ");
        self.add("ltsu", "っ");
        self.add("xwa", "ゎ");
        self.add("lwa", "ゎ");
        assert(self.rules() =~= start + rules_chunk_8());
    }

    fn add_rules_9(&mut self)
        ensures
            final(self).rules() == old(self).rules() + rules_chunk_9(),
    {
        let ghost start = self.rules();
        self.add("xka", "ゕ");
        self.add("xke", "ゖ");
        self.add("-", "ー");
        self.add(",", "、");
        self.add(".", "。");
        self.add("?", "？");
        self.add("!", "！");
        self.add("[", "「");
        self.add("]", "」");
        self.add("~", "〜");
        self.add("zya", "じゃ");
        self.add("zyi", "じぃ");
        self.add("zyu", "じゅ");
        self.add("zye", "じぇ");
        self.add("zyo", "じょ");
        self.add("tya", "ちゃ");
        self.add("tyi", "ちぃ");
        self.add("tyu", "ちゅ");
        self.add("tye", "ちぇ");
        self.add("tyo", "ちょ");
        self.add("dya", "ぢゃ");
        self.add("dyi", "ぢぃ");
        self.add("dyu", "ぢゅ");
        self.add("dye", "ぢぇ");
        self.add("dyo", "ぢょ");
        assert(self.rules() =~= start + rules_chunk_9());
    }

}

impl Default for RomajiConverter {
    fn default() -> (r: Self)
        ensures
            r@ == table_map(default_rules()),
    {
        Self::new()
    }
}

/// Converting a text gives what converting it in lower case gives: upper
/// case letters are read as lower case.
pub proof fn law_convert_ignores_case(c: RomajiConverter, s: Seq<char>)
    ensures
        c.spec_convert(s) == c.spec_convert(lower_seq(s)),
{
    assert forall|k: int| 0 <= k < s.len() implies #[trigger] ascii_lower(ascii_lower(s[k])) == ascii_lower(s[k]) by {
        let ch = s[k];
        if is_ascii_upper(ch) {
            assert(!is_ascii_upper(ascii_lower(ch)));
        }
    }
    assert(lower_seq(lower_seq(s)) =~= lower_seq(s));
}

/// Any two converters with the default rules (as `new` builds them)
/// convert every text alike.
pub proof fn law_default_converters_agree(a: RomajiConverter, b: RomajiConverter, s: Seq<char>)
    requires
        a@ == table_map(default_rules()),
        b@ == table_map(default_rules()),
    ensures
        a.spec_convert(s) == b.spec_convert(s),
{
}


/// `s` holds no ASCII capital letter.
pub open spec fn no_ascii_upper(s: Seq<char>) -> bool {
    forall|k: int| 0 <= k < s.len() ==> !is_ascii_upper(#[trigger] s[k])
}

/// One of the punctuation marks that the default rules read.
pub open spec fn is_rule_mark(c: char) -> bool {
    c == '-' || c == ',' || c == '.' || c == '?' || c == '!' || c == '[' || c == ']' || c == '~'
}

/// A rule key of lower case ASCII letters, or a single rule mark.
pub open spec fn key_is_plain(k: Seq<char>) -> bool {
    ||| k.len() > 0 && forall|q: int| 0 <= q < k.len() ==> 'a' <= #[trigger] k[q] <= 'z'
    ||| k.len() == 1 && is_rule_mark(k[0])
}

/// A rule with a plain key whose kana holds no ASCII capital.
pub open spec fn rule_is_plain(p: (Seq<char>, Seq<char>)) -> bool {
    &&& key_is_plain(p.0)
    &&& no_ascii_upper(p.1)
}

/// A character that no default rule reads: neither an ASCII letter nor a
/// rule mark (every character outside ASCII is one).
pub open spec fn passes_through(c: char) -> bool {
    !is_ascii_alpha(c) && !is_rule_mark(c)
}

pub open spec fn all_plain(e: Seq<(Seq<char>, Seq<char>)>) -> bool {
    forall|j: int| 0 <= j < e.len() ==> rule_is_plain(#[trigger] e[j])
}

/// The rules of chunk 0 are plain; each literal is revealed to check it.
proof fn lemma_chunk_0_plain()
    ensures
        all_plain(rules_chunk_0()),
{
    reveal_strlit("a");
    reveal_strlit("あ");
    reveal_strlit("i");
    reveal_strlit("い");
    reveal_strlit("u");
    reveal_strlit("う");
    reveal_strlit("e");
    reveal_strlit("え");
    reveal_strlit("o");
    reveal_strlit("お");
    reveal_strlit("ka");
    reveal_strlit("か");
    reveal_strlit("ki");
    reveal_strlit("き");
    reveal_strlit("ku");
    reveal_strlit("く");
    reveal_strlit("ke");
    reveal_strlit("け");
    reveal_strlit("ko");
    reveal_strlit("こ");
    reveal_strlit("ga");
    reveal_strlit("が");
    reveal_strlit("gi");
    reveal_strlit("ぎ");
    reveal_strlit("gu");
    reveal_strlit("ぐ");
    reveal_strlit("ge");
    reveal_strlit("げ");
    reveal_strlit("go");
    reveal_strlit("ご");
    reveal_strlit("sa");
    reveal_strlit("さ");
    reveal_strlit("si");
    reveal_strlit("し");
    reveal_strlit("shi");
    reveal_strlit("su");
    reveal_strlit("す");
    reveal_strlit("se");
    reveal_strlit("せ");
    reveal_strlit("so");
    reveal_strlit("そ");
    reveal_strlit("za");
    reveal_strlit("ざ");
    reveal_strlit("zi");
    reveal_strlit("じ");
    reveal_strlit("ji");
    reveal_strlit("zu");
    reveal_strlit("ず");
}

/// The rules of chunk 1 are plain; each literal is revealed to check it.
proof fn lemma_chunk_1_plain()
    ensures
        all_plain(rules_chunk_1()),
{
    reveal_strlit("ze");
    reveal_strlit("ぜ");
    reveal_strlit("zo");
    reveal_strlit("ぞ");
    reveal_strlit("ta");
    reveal_strlit("た");
    reveal_strlit("ti");
    reveal_strlit("ち");
    reveal_strlit("chi");
    reveal_strlit("tu");
    reveal_strlit("つ");
    reveal_strlit("tsu");
    reveal_strlit("te");
    reveal_strlit("て");
    reveal_strlit("to");
    reveal_strlit("と");
    reveal_strlit("da");
    reveal_strlit("だ");
    reveal_strlit("di");
    reveal_strlit("ぢ");
    reveal_strlit("du");
    reveal_strlit("づ");
    reveal_strlit("de");
    reveal_strlit("で");
    reveal_strlit("do");
    reveal_strlit("ど");
    reveal_strlit("na");
    reveal_strlit("な");
    reveal_strlit("ni");
    reveal_strlit("に");
    reveal_strlit("nu");
    reveal_strlit("ぬ");
    reveal_strlit("ne");
    reveal_strlit("ね");
    reveal_strlit("no");
    reveal_strlit("の");
    reveal_strlit("ha");
    reveal_strlit("は");
    reveal_strlit("hi");
    reveal_strlit("ひ");
    reveal_strlit("hu");
    reveal_strlit("ふ");
    reveal_strlit("fu");
    reveal_strlit("he");
    reveal_strlit("へ");
    reveal_strlit("ho");
    reveal_strlit("ほ");
}

/// The rules of chunk 2 are plain; each literal is revealed to check it.
proof fn lemma_chunk_2_plain()
    ensures
        all_plain(rules_chunk_2()),
{
    reveal_strlit("ba");
    reveal_strlit("ば");
    reveal_strlit("bi");
    reveal_strlit("び");
    reveal_strlit("bu");
    reveal_strlit("ぶ");
    reveal_strlit("be");
    reveal_strlit("べ");
    reveal_strlit("bo");
    reveal_strlit("ぼ");
    reveal_strlit("pa");
    reveal_strlit("ぱ");
    reveal_strlit("pi");
    reveal_strlit("ぴ");
    reveal_strlit("pu");
    reveal_strlit("ぷ");
    reveal_strlit("pe");
    reveal_strlit("ぺ");
    reveal_strlit("po");
    reveal_strlit("ぽ");
    reveal_strlit("ma");
    reveal_strlit("ま");
    reveal_strlit("mi");
    reveal_strlit("み");
    reveal_strlit("mu");
    reveal_strlit("む");
    reveal_strlit("me");
    reveal_strlit("め");
    reveal_strlit("mo");
    reveal_strlit("も");
    reveal_strlit("ya");
    reveal_strlit("や");
    reveal_strlit("yi");
    reveal_strlit("い");
    reveal_strlit("yu");
    reveal_strlit("ゆ");
    reveal_strlit("ye");
    reveal_strlit("いぇ");
    reveal_strlit("yo");
    reveal_strlit("よ");
    reveal_strlit("ra");
    reveal_strlit("ら");
    reveal_strlit("ri");
    reveal_strlit("り");
    reveal_strlit("ru");
    reveal_strlit("る");
    reveal_strlit("re");
    reveal_strlit("れ");
    reveal_strlit("ro");
    reveal_strlit("ろ");
}

/// The rules of chunk 3 are plain; each literal is revealed to check it.
proof fn lemma_chunk_3_plain()
    ensures
        all_plain(rules_chunk_3()),
{
    reveal_strlit("wa");
    reveal_strlit("わ");
    reveal_strlit("wi");
    reveal_strlit("うぃ");
    reveal_strlit("wu");
    reveal_strlit("う");
    reveal_strlit("we");
    reveal_strlit("うぇ");
    reveal_strlit("wo");
    reveal_strlit("を");
    reveal_strlit("nn");
    reveal_strlit("ん");
    reveal_strlit("nna");
    reveal_strlit("んな");
    reveal_strlit("nni");
    reveal_strlit("んに");
    reveal_strlit("nnu");
    reveal_strlit("んぬ");
    reveal_strlit("nne");
    reveal_strlit("んね");
    reveal_strlit("nno");
    reveal_strlit("んの");
    reveal_strlit("nnya");
    reveal_strlit("んにゃ");
    reveal_strlit("nnyi");
    reveal_strlit("んにぃ");
    reveal_strlit("nnyu");
    reveal_strlit("んにゅ");
    reveal_strlit("nnye");
    reveal_strlit("んにぇ");
    reveal_strlit("nnyo");
    reveal_strlit("んにょ");
    reveal_strlit("kya");
    reveal_strlit("きゃ");
    reveal_strlit("kyi");
    reveal_strlit("きぃ");
    reveal_strlit("kyu");
    reveal_strlit("きゅ");
    reveal_strlit("kye");
    reveal_strlit("きぇ");
    reveal_strlit("kyo");
    reveal_strlit("きょ");
    reveal_strlit("gya");
    reveal_strlit("ぎゃ");
    reveal_strlit("gyi");
    reveal_strlit("ぎぃ");
    reveal_strlit("gyu");
    reveal_strlit("ぎゅ");
    reveal_strlit("gye");
    reveal_strlit("ぎぇ");
}

/// The rules of chunk 4 are plain; each literal is revealed to check it.
proof fn lemma_chunk_4_plain()
    ensures
        all_plain(rules_chunk_4()),
{
    reveal_strlit("gyo");
    reveal_strlit("ぎょ");
    reveal_strlit("sya");
    reveal_strlit("しゃ");
    reveal_strlit("sha");
    reveal_strlit("syi");
    reveal_strlit("しぃ");
    reveal_strlit("syu");
    reveal_strlit("しゅ");
    reveal_strlit("shu");
    reveal_strlit("sye");
    reveal_strlit("しぇ");
    reveal_strlit("she");
    reveal_strlit("syo");
    reveal_strlit("しょ");
    reveal_strlit("sho");
    reveal_strlit("ja");
    reveal_strlit("じゃ");
    reveal_strlit("jya");
    reveal_strlit("ji");
    reveal_strlit("じ");
    reveal_strlit("jyi");
    reveal_strlit("じぃ");
    reveal_strlit("ju");
    reveal_strlit("じゅ");
    reveal_strlit("jyu");
    reveal_strlit("je");
    reveal_strlit("じぇ");
    reveal_strlit("jye");
    reveal_strlit("jo");
    reveal_strlit("じょ");
    reveal_strlit("jyo");
    reveal_strlit("cha");
    reveal_strlit("ちゃ");
    reveal_strlit("cya");
    reveal_strlit("chi");
    reveal_strlit("ち");
    reveal_strlit("cyi");
    reveal_strlit("ちぃ");
    reveal_strlit("chu");
    reveal_strlit("ちゅ");
}

/// The rules of chunk 5 are plain; each literal is revealed to check it.
proof fn lemma_chunk_5_plain()
    ensures
        all_plain(rules_chunk_5()),
{
    reveal_strlit("cyu");
    reveal_strlit("ちゅ");
    reveal_strlit("che");
    reveal_strlit("ちぇ");
    reveal_strlit("cye");
    reveal_strlit("cho");
    reveal_strlit("ちょ");
    reveal_strlit("cyo");
    reveal_strlit("nya");
    reveal_strlit("にゃ");
    reveal_strlit("nyi");
    reveal_strlit("にぃ");
    reveal_strlit("nyu");
    reveal_strlit("にゅ");
    reveal_strlit("nye");
    reveal_strlit("にぇ");
    reveal_strlit("nyo");
    reveal_strlit("にょ");
    reveal_strlit("hya");
    reveal_strlit("ひゃ");
    reveal_strlit("hyi");
    reveal_strlit("ひぃ");
    reveal_strlit("hyu");
    reveal_strlit("ひゅ");
    reveal_strlit("hye");
    reveal_strlit("ひぇ");
    reveal_strlit("hyo");
    reveal_strlit("ひょ");
    reveal_strlit("bya");
    reveal_strlit("びゃ");
    reveal_strlit("byi");
    reveal_strlit("びぃ");
    reveal_strlit("byu");
    reveal_strlit("びゅ");
    reveal_strlit("bye");
    reveal_strlit("びぇ");
    reveal_strlit("byo");
    reveal_strlit("びょ");
    reveal_strlit("pya");
    reveal_strlit("ぴゃ");
    reveal_strlit("pyi");
    reveal_strlit("ぴぃ");
    reveal_strlit("pyu");
    reveal_strlit("ぴゅ");
    reveal_strlit("pye");
    reveal_strlit("ぴぇ");
    reveal_strlit("pyo");
    reveal_strlit("ぴょ");
}

/// The rules of chunk 6 are plain; each literal is revealed to check it.
proof fn lemma_chunk_6_plain()
    ensures
        all_plain(rules_chunk_6()),
{
    reveal_strlit("mya");
    reveal_strlit("みゃ");
    reveal_strlit("myi");
    reveal_strlit("みぃ");
    reveal_strlit("myu");
    reveal_strlit("みゅ");
    reveal_strlit("mye");
    reveal_strlit("みぇ");
    reveal_strlit("myo");
    reveal_strlit("みょ");
    reveal_strlit("rya");
    reveal_strlit("りゃ");
    reveal_strlit("ryi");
    reveal_strlit("りぃ");
    reveal_strlit("ryu");
    reveal_strlit("りゅ");
    reveal_strlit("rye");
    reveal_strlit("りぇ");
    reveal_strlit("ryo");
    reveal_strlit("りょ");
    reveal_strlit("fa");
    reveal_strlit("ふぁ");
    reveal_strlit("fi");
    reveal_strlit("ふぃ");
    reveal_strlit("fe");
    reveal_strlit("ふぇ");
    reveal_strlit("fo");
    reveal_strlit("ふぉ");
    reveal_strlit("fya");
    reveal_strlit("ふゃ");
    reveal_strlit("fyu");
    reveal_strlit("ふゅ");
    reveal_strlit("fyo");
    reveal_strlit("ふょ");
    reveal_strlit("va");
    reveal_strlit("ゔぁ");
    reveal_strlit("vi");
    reveal_strlit("ゔぃ");
    reveal_strlit("vu");
    reveal_strlit("ゔ");
    reveal_strlit("ve");
    reveal_strlit("ゔぇ");
    reveal_strlit("vo");
    reveal_strlit("ゔぉ");
    reveal_strlit("tsa");
    reveal_strlit("つぁ");
    reveal_strlit("tsi");
    reveal_strlit("つぃ");
    reveal_strlit("tse");
    reveal_strlit("つぇ");
}

/// The rules of chunk 7 are plain; each literal is revealed to check it.
proof fn lemma_chunk_7_plain()
    ensures
        all_plain(rules_chunk_7()),
{
    reveal_strlit("tso");
    reveal_strlit("つぉ");
    reveal_strlit("tha");
    reveal_strlit("てゃ");
    reveal_strlit("thi");
    reveal_strlit("てぃ");
    reveal_strlit("thu");
    reveal_strlit("てゅ");
    reveal_strlit("the");
    reveal_strlit("てぇ");
    reveal_strlit("tho");
    reveal_strlit("てょ");
    reveal_strlit("dha");
    reveal_strlit("でゃ");
    reveal_strlit("dhi");
    reveal_strlit("でぃ");
    reveal_strlit("dhu");
    reveal_strlit("でゅ");
    reveal_strlit("dhe");
    reveal_strlit("でぇ");
    reveal_strlit("dho");
    reveal_strlit("でょ");
    reveal_strlit("twu");
    reveal_strlit("とぅ");
    reveal_strlit("dwu");
    reveal_strlit("どぅ");
    reveal_strlit("wha");
    reveal_strlit("うぁ");
    reveal_strlit("whi");
    reveal_strlit("うぃ");
    reveal_strlit("whu");
    reveal_strlit("う");
    reveal_strlit("whe");
    reveal_strlit("うぇ");
    reveal_strlit("who");
    reveal_strlit("うぉ");
    reveal_strlit("qa");
    reveal_strlit("くぁ");
    reveal_strlit("qi");
    reveal_strlit("くぃ");
    reveal_strlit("qu");
    reveal_strlit("く");
    reveal_strlit("qe");
    reveal_strlit("くぇ");
    reveal_strlit("qo");
    reveal_strlit("くぉ");
    reveal_strlit("ca");
    reveal_strlit("か");
    reveal_strlit("ci");
    reveal_strlit("し");
}

/// The rules of chunk 8 are plain; each literal is revealed to check it.
proof fn lemma_chunk_8_plain()
    ensures
        all_plain(rules_chunk_8()),
{
    reveal_strlit("cu");
    reveal_strlit("く");
    reveal_strlit("ce");
    reveal_strlit("せ");
    reveal_strlit("co");
    reveal_strlit("こ");
    reveal_strlit("xa");
    reveal_strlit("ぁ");
    reveal_strlit("xi");
    reveal_strlit("ぃ");
    reveal_strlit("xu");
    reveal_strlit("ぅ");
    reveal_strlit("xe");
    reveal_strlit("ぇ");
    reveal_strlit("xo");
    reveal_strlit("ぉ");
    reveal_strlit("la");
    reveal_strlit("li");
    reveal_strlit("lu");
    reveal_strlit("le");
    reveal_strlit("lo");
    reveal_strlit("xya");
    reveal_strlit("ゃ");
    reveal_strlit("xyu");
    reveal_strlit("ゅ");
    reveal_strlit("xyo");
    reveal_strlit("ょ");
    reveal_strlit("lya");
    reveal_strlit("lyu");
    reveal_strlit("lyo");
    reveal_strlit("xtu");
    reveal_strlit("っ");
    reveal_strlit("ltu");
    reveal_strlit("xtsu");
    reveal_strlit("ltsu");
    reveal_strlit("xwa");
    reveal_strlit("ゎ");
    reveal_strlit("lwa");
}

/// The rules of chunk 9 are plain; each literal is revealed to check it.
proof fn lemma_chunk_9_plain()
    ensures
        all_plain(rules_chunk_9()),
{
    reveal_strlit("xka");
    reveal_strlit("ゕ");
    reveal_strlit("xke");
    reveal_strlit("ゖ");
    reveal_strlit("-");
    reveal_strlit("ー");
    reveal_strlit(",");
    reveal_strlit("、");
    reveal_strlit(".");
    reveal_strlit("。");
    reveal_strlit("?");
    reveal_strlit("？");
    reveal_strlit("!");
    reveal_strlit("！");
    reveal_strlit("[");
    reveal_strlit("「");
    reveal_strlit("]");
    reveal_strlit("」");
    reveal_strlit("~");
    reveal_strlit("〜");
    reveal_strlit("zya");
    reveal_strlit("じゃ");
    reveal_strlit("zyi");
    reveal_strlit("じぃ");
    reveal_strlit("zyu");
    reveal_strlit("じゅ");
    reveal_strlit("zye");
    reveal_strlit("じぇ");
    reveal_strlit("zyo");
    reveal_strlit("じょ");
    reveal_strlit("tya");
    reveal_strlit("ちゃ");
    reveal_strlit("tyi");
    reveal_strlit("ちぃ");
    reveal_strlit("tyu");
    reveal_strlit("ちゅ");
    reveal_strlit("tye");
    reveal_strlit("ちぇ");
    reveal_strlit("tyo");
    reveal_strlit("ちょ");
    reveal_strlit("dya");
    reveal_strlit("ぢゃ");
    reveal_strlit("dyi");
    reveal_strlit("ぢぃ");
    reveal_strlit("dyu");
    reveal_strlit("ぢゅ");
    reveal_strlit("dye");
    reveal_strlit("ぢぇ");
    reveal_strlit("dyo");
    reveal_strlit("ぢょ");
}

proof fn lemma_plain_concat(a: Seq<(Seq<char>, Seq<char>)>, b: Seq<(Seq<char>, Seq<char>)>)
    requires
        all_plain(a),
        all_plain(b),
    ensures
        all_plain(a + b),
{
    assert forall|j: int| 0 <= j < (a + b).len() implies rule_is_plain(#[trigger] (a + b)[j]) by {
        if j < a.len() {
            assert((a + b)[j] == a[j]);
        } else {
            assert((a + b)[j] == b[j - a.len()]);
        }
    }
}

proof fn lemma_default_rules_plain()
    ensures
        all_plain(default_rules()),
{
    lemma_chunk_0_plain();
    lemma_chunk_1_plain();
    lemma_chunk_2_plain();
    lemma_chunk_3_plain();
    lemma_chunk_4_plain();
    lemma_chunk_5_plain();
    lemma_chunk_6_plain();
    lemma_chunk_7_plain();
    lemma_chunk_8_plain();
    lemma_chunk_9_plain();
    let c01 = rules_chunk_0() + rules_chunk_1();
    lemma_plain_concat(rules_chunk_0(), rules_chunk_1());
    let c2 = c01 + rules_chunk_2();
    lemma_plain_concat(c01, rules_chunk_2());
    let c3 = c2 + rules_chunk_3();
    lemma_plain_concat(c2, rules_chunk_3());
    let c4 = c3 + rules_chunk_4();
    lemma_plain_concat(c3, rules_chunk_4());
    let c5 = c4 + rules_chunk_5();
    lemma_plain_concat(c4, rules_chunk_5());
    let c6 = c5 + rules_chunk_6();
    lemma_plain_concat(c5, rules_chunk_6());
    let c7 = c6 + rules_chunk_7();
    lemma_plain_concat(c6, rules_chunk_7());
    let c8 = c7 + rules_chunk_8();
    lemma_plain_concat(c7, rules_chunk_8());
    lemma_plain_concat(c8, rules_chunk_9());
}

proof fn lemma_table_plain(e: Seq<(Seq<char>, Seq<char>)>)
    requires
        all_plain(e),
    ensures
        forall|k: Seq<char>| #[trigger] table_map(e).contains_key(k) ==> key_is_plain(k) && no_ascii_upper(
            table_map(e)[k],
        ),
    decreases e.len(),
{
    if e.len() > 0 {
        let d = e.drop_last();
        assert forall|j: int| 0 <= j < d.len() implies rule_is_plain(#[trigger] d[j]) by {
            assert(d[j] == e[j]);
        }
        lemma_table_plain(d);
        let last = e[e.len() - 1];
        assert(rule_is_plain(last));
        assert(table_map(e) == table_map(d).insert(last.0, last.1));
        assert forall|k: Seq<char>| #[trigger] table_map(e).contains_key(k) implies key_is_plain(k) && no_ascii_upper(
            table_map(e)[k],
        ) by {
            if k != last.0 {
                assert(table_map(d).contains_key(k));
            }
        }
    }
}

proof fn lemma_unread_passes(m: Map<Seq<char>, Seq<char>>, s: Seq<char>, i: nat)
    requires
        forall|k: Seq<char>| #[trigger] m.contains_key(k) ==> key_is_plain(k),
        forall|k: int| 0 <= k < s.len() ==> passes_through(#[trigger] s[k]),
        i <= s.len(),
    ensures
        convert_from(m, s, i) == s.skip(i as int),
    decreases s.len() - i,
{
    if i < s.len() {
        let ii = i as int;
        assert(passes_through(s[ii]));
        if ii + 4 <= s.len() {
            assert(s.subrange(ii, ii + 4)[0] == s[ii]);
        }
        if ii + 3 <= s.len() {
            assert(s.subrange(ii, ii + 3)[0] == s[ii]);
        }
        if ii + 2 <= s.len() {
            assert(s.subrange(ii, ii + 2)[0] == s[ii]);
        }
        assert(s.subrange(ii, ii + 1)[0] == s[ii]);
        assert(longest_rule(m, s, ii) == 0);
        lemma_unread_passes(m, s, i + 1);
        assert(s.skip(ii) =~= seq![s[ii]] + s.skip(ii + 1));
    }
}

proof fn lemma_no_upper_concat(a: Seq<char>, b: Seq<char>)
    requires
        no_ascii_upper(a),
        no_ascii_upper(b),
    ensures
        no_ascii_upper(a + b),
{
    assert forall|k: int| 0 <= k < (a + b).len() implies !is_ascii_upper(#[trigger] (a + b)[k]) by {
        if k < a.len() {
            assert((a + b)[k] == a[k]);
        } else {
            assert((a + b)[k] == b[k - a.len()]);
        }
    }
}

proof fn lemma_no_upper_out(m: Map<Seq<char>, Seq<char>>, t: Seq<char>, i: nat)
    requires
        forall|k: Seq<char>| #[trigger] m.contains_key(k) ==> no_ascii_upper(m[k]),
        no_ascii_upper(t),
        i <= t.len(),
    ensures
        no_ascii_upper(convert_from(m, t, i)),
    decreases t.len() - i,
{
    if i < t.len() {
        let ii = i as int;
        let l = longest_rule(m, t, ii);
        if l > 0 {
            lemma_no_upper_out(m, t, (i + l) as nat);
            lemma_no_upper_concat(m[t.subrange(ii, ii + l)], convert_from(m, t, (i + l) as nat));
        } else {
            lemma_no_upper_out(m, t, i + 1);
            assert(!is_ascii_upper(t[ii]));
            assert(no_ascii_upper(seq![t[ii]]));
            assert(no_ascii_upper(seq!['っ']));
            assert(no_ascii_upper(seq!['ん']));
            lemma_no_upper_concat(seq![t[ii]], convert_from(m, t, i + 1));
            lemma_no_upper_concat(seq!['っ'], convert_from(m, t, i + 1));
            lemma_no_upper_concat(seq!['ん'], convert_from(m, t, i + 1));
        }
    }
}

/// With the default rules, a text of characters that no rule reads
/// (neither ASCII letters nor the marks - , . ? ! [ ] ~; so any text without
/// ASCII) converts to itself.
pub proof fn law_unread_text_unchanged(c: RomajiConverter, s: Seq<char>)
    requires
        c@ == table_map(default_rules()),
        forall|k: int| 0 <= k < s.len() ==> passes_through(#[trigger] s[k]),
    ensures
        c.spec_convert(s) == s,
{
    lemma_default_rules_plain();
    lemma_table_plain(default_rules());
    assert forall|k: int| 0 <= k < s.len() implies #[trigger] lower_seq(s)[k] == s[k] by {
        assert(passes_through(s[k]));
    }
    assert(lower_seq(s) =~= s);
    lemma_unread_passes(c@, s, 0);
    assert(s.skip(0) =~= s);
}

/// With the default rules, the conversion of any text holds no ASCII
/// capital letter: input capitals are read as lower case and no rule's kana
/// holds one.
pub proof fn law_no_capitals_out(c: RomajiConverter, s: Seq<char>)
    requires
        c@ == table_map(default_rules()),
    ensures
        no_ascii_upper(c.spec_convert(s)),
{
    lemma_default_rules_plain();
    lemma_table_plain(default_rules());
    let t = lower_seq(s);
    assert forall|k: int| 0 <= k < t.len() implies !is_ascii_upper(#[trigger] t[k]) by {
        let ch = s[k];
        if is_ascii_upper(ch) {
            assert(!is_ascii_upper(ascii_lower(ch)));
        }
    }
    lemma_no_upper_out(c@, t, 0);
}


/// A doubled consonant where no rule starts gives the small tsu: when the
/// character at `i` is one of k s t p g z d b c h m r w f v j q y, the next
/// character is the same, and no rule key begins at `i`, the conversion from
/// `i` is っ followed by the conversion from the second letter.
pub proof fn law_doubled_consonant(m: Map<Seq<char>, Seq<char>>, s: Seq<char>, i: nat)
    requires
        i + 1 < s.len(),
        s[i as int] == s[i + 1int],
        s[i as int] == 'k' || s[i as int] == 's' || s[i as int] == 't' || s[i as int] == 'p' || s[i as int] == 'g'
            || s[i as int] == 'z' || s[i as int] == 'd' || s[i as int] == 'b' || s[i as int] == 'c' || s[i as int] == 'h'
            || s[i as int] == 'm' || s[i as int] == 'r' || s[i as int] == 'w' || s[i as int] == 'f' || s[i as int] == 'v'
            || s[i as int] == 'j' || s[i as int] == 'q' || s[i as int] == 'y',
        forall|l: int| 1 <= l <= 4 && i + l <= s.len() ==> !m.contains_key(#[trigger] s.subrange(i as int, i + l)),
    ensures
        convert_from(m, s, i) == seq!['っ'] + convert_from(m, s, i + 1),
{
    let ii = i as int;
    assert(!m.contains_key(s.subrange(ii, ii + 1)));
    assert(!m.contains_key(s.subrange(ii, ii + 2)));
    if ii + 3 <= s.len() {
        assert(!m.contains_key(s.subrange(ii, ii + 3)));
    }
    if ii + 4 <= s.len() {
        assert(!m.contains_key(s.subrange(ii, ii + 4)));
    }
    assert(longest_rule(m, s, ii) == 0);
}


/// A lone `n` before a letter that cannot continue it gives ん: when the
/// character at `i` is `n`, no rule key begins at `i`, and the next
/// character is none of a i u e o y, the conversion from `i` is ん followed
/// by the conversion from the next character; a final `n` with no rule
/// stays `n`.
pub proof fn law_lone_n(m: Map<Seq<char>, Seq<char>>, s: Seq<char>, i: nat)
    requires
        i < s.len(),
        s[i as int] == 'n',
        forall|l: int| 1 <= l <= 4 && i + l <= s.len() ==> !m.contains_key(#[trigger] s.subrange(i as int, i + l)),
    ensures
        i + 1 < s.len() && s[i + 1int] != 'a' && s[i + 1int] != 'i' && s[i + 1int] != 'u' && s[i + 1int] != 'e'
            && s[i + 1int] != 'o' && s[i + 1int] != 'y' ==> convert_from(m, s, i) == seq!['ん'] + convert_from(m, s, i + 1),
        i + 1 == s.len() ==> convert_from(m, s, i) == seq!['n'],
{
    let ii = i as int;
    assert(!m.contains_key(s.subrange(ii, ii + 1)));
    if ii + 2 <= s.len() {
        assert(!m.contains_key(s.subrange(ii, ii + 2)));
    }
    if ii + 3 <= s.len() {
        assert(!m.contains_key(s.subrange(ii, ii + 3)));
    }
    if ii + 4 <= s.len() {
        assert(!m.contains_key(s.subrange(ii, ii + 4)));
    }
    assert(longest_rule(m, s, ii) == 0);
    if i + 1 == s.len() {
        assert(convert_from(m, s, i + 1) == Seq::<char>::empty());
        assert(seq!['n'] + Seq::<char>::empty() =~= seq!['n']);
    }
}

} // verus!
