//! Text handling around a local language model that converts readings:
//! the prompts sent to it and the checks on what it answers. The requests
//! themselves are made by the application.

use vstd::prelude::*;
use crate::text::{chars_of, string_from_chars, push_char, is_hiragana_letter, seq_starts_with, seq_contains_seq, contains_str, chars_eq, replace_all, replace_chars};
use crate::fuzzy::append_chars;

verus! {

/// A backend that converts a reading into ordinary Japanese text; `None`
/// when it cannot.
pub trait LlmBackend {
    /// Name of the backend.
    fn name(&self) -> &str;

    /// Converts `reading`, given the text committed just before it.
    fn convert(&self, reading: &str, context: &str) -> Option<String>;
}

/// Where and how the model is asked.
pub struct LlmConfig {
    /// URL of the generation endpoint.
    pub url: String,
    /// Model name.
    pub model: String,
    /// Timeout of a request in milliseconds.
    pub timeout_ms: u64,
}

/// Backend that asks an Ollama server.
pub struct OllamaBackend {
    pub cfg: LlmConfig,
}

impl OllamaBackend {
    /// Backend with the given settings.
    pub fn new(cfg: LlmConfig) -> (r: Self)
        ensures
            r.cfg == cfg,
    {
        OllamaBackend { cfg }
    }

    /// Name of the backend.
    pub fn name(&self) -> (r: &str)
        ensures
            r@ == "ollama"@,
    {
        "ollama"
    }
}

/// Unicode white space, as `char::is_whitespace` has it.
pub open spec fn is_ws(c: char) -> bool {
    let u = c as u32;
    (0x09 <= u && u <= 0x0D) || u == 0x20 || u == 0x85 || u == 0xA0 || u == 0x1680 || (0x2000 <= u && u
        <= 0x200A) || u == 0x2028 || u == 0x2029 || u == 0x202F || u == 0x205F || u == 0x3000
}

fn is_ws_exec(c: char) -> (r: bool)
    ensures
        r == is_ws(c),
{
    let u = c as u32;
    (0x09 <= u && u <= 0x0D) || u == 0x20 || u == 0x85 || u == 0xA0 || u == 0x1680 || (0x2000 <= u && u
        <= 0x200A) || u == 0x2028 || u == 0x2029 || u == 0x202F || u == 0x205F || u == 0x3000
}

/// Number of leading characters of `s` in the class `p`.
pub open spec fn lead_len(s: Seq<char>, p: spec_fn(char) -> bool) -> nat
    decreases s.len(),
{
    if s.len() > 0 && p(s[0]) {
        1 + lead_len(s.drop_first(), p)
    } else {
        0
    }
}

/// `s` without the characters of class `p` at either end.
pub open spec fn trim_by(s: Seq<char>, p: spec_fn(char) -> bool) -> Seq<char> {
    let a = s.skip(lead_len(s, p) as int);
    a.take(a.len() - lead_len(a.reverse(), p))
}

pub open spec fn ws_class() -> spec_fn(char) -> bool {
    |c: char| is_ws(c)
}

/// `s` without white space at either end.
pub open spec fn trim_ws(s: Seq<char>) -> Seq<char> {
    trim_by(s, ws_class())
}

pub(crate) proof fn lemma_lead_len(s: Seq<char>, p: spec_fn(char) -> bool, i: int)
    requires
        0 <= i <= s.len(),
        forall|k: int| 0 <= k < i ==> p(#[trigger] s[k]),
        i == s.len() || !p(s[i]),
    ensures
        lead_len(s, p) == i,
    decreases s.len(),
{
    if i > 0 {
        assert forall|k: int| 0 <= k < i - 1 implies p(#[trigger] s.drop_first()[k]) by {
            assert(s.drop_first()[k] == s[k + 1]);
        }
        lemma_lead_len(s.drop_first(), p, i - 1);
    }
}

/// The character class chosen by `which`: white space (0), the quote and
/// space set (1), the double quote (2).
pub open spec fn class_of(which: u8) -> spec_fn(char) -> bool {
    if which == 0 {
        ws_class()
    } else if which == 1 {
        quote_class()
    } else {
        |c: char| c == '"'
    }
}

/// Trims the characters of the class `which` (see `class_of`) from both
/// ends of `cs`.
pub(crate) fn trim_exec(cs: &Vec<char>, which: u8) -> (r: Vec<char>)
    requires
        which <= 2,
    ensures
        r@ == trim_by(cs@, class_of(which)),
{
    let ghost p = class_of(which);
    let n = cs.len();
    let mut a: usize = 0;
    while a < n && in_class(cs[a], which)
        invariant
            a <= n,
            n == cs@.len(),
            which <= 2,
            p == class_of(which),
            forall|k: int| 0 <= k < a ==> p(#[trigger] cs@[k]),
        decreases n - a,
    {
        a += 1;
    }
    proof {
        lemma_lead_len(cs@, p, a as int);
    }
    let ghost rest = cs@.skip(a as int);
    let mut b: usize = n;
    while b > a && in_class(cs[b - 1], which)
        invariant
            a <= b <= n,
            n == cs@.len(),
            which <= 2,
            p == class_of(which),
            forall|k: int| b <= k < n ==> p(#[trigger] cs@[k]),
        decreases b - a,
    {
        b -= 1;
    }
    proof {
        let rv = rest.reverse();
        assert forall|k: int| 0 <= k < n - b implies p(#[trigger] rv[k]) by {
            assert(rv[k] == cs@[n - 1 - k]);
        }
        if b > a {
            assert(rv[n - b] == cs@[b - 1]);
        }
        lemma_lead_len(rv, p, (n - b) as int);
    }
    let out = crate::text::vec_from_range(cs.as_slice(), a, b);
    assert(out@ =~= rest.take(rest.len() - (n - b)));
    out
}

/// The characters stripped from the ends of the chosen line: quotes,
/// back quotes and spaces.
pub open spec fn is_quote(c: char) -> bool {
    c == '「' || c == '」' || c == '『' || c == '』' || c == '"' || c == '\'' || c == '`' || c == ' ' || c == '　'
}

pub open spec fn quote_class() -> spec_fn(char) -> bool {
    |c: char| is_quote(c)
}

fn is_quote_exec(c: char) -> (r: bool)
    ensures
        r == is_quote(c),
{
    c == '「' || c == '」' || c == '『' || c == '』' || c == '"' || c == '\'' || c == '`' || c == ' ' || c == '　'
}

fn in_class(c: char, which: u8) -> (r: bool)
    ensures
        r == class_of(which)(c),
{
    if which == 0 {
        is_ws_exec(c)
    } else if which == 1 {
        is_quote_exec(c)
    } else {
        c == '"'
    }
}

/// Whether `s` is empty or white space only.
pub fn is_blank(s: &str) -> (r: bool)
    ensures
        r == (trim_ws(s@).len() == 0),
{
    let cs = chars_of(s);
    let t = trim_exec(&cs, 0);
    t.len() == 0
}

/// Emoji and decorative symbols, which ordinary Japanese text does not
/// hold.
pub open spec fn emoji_or_symbol(c: char) -> bool {
    let u = c as u32;
    (0x1F000 <= u && u <= 0x1FAFF) || (0x2600 <= u && u <= 0x27BF) || (0x2B00 <= u && u <= 0x2BFF) || (0xFE00
        <= u && u <= 0xFE0F) || u == 0x200D || (0x2190 <= u && u <= 0x21FF)
}

/// Whether `c` is an emoji or a decorative symbol.
pub fn is_emoji_or_symbol(c: char) -> (r: bool)
    ensures
        r == emoji_or_symbol(c),
{
    let u = c as u32;
    (0x1F000 <= u && u <= 0x1FAFF) || (0x2600 <= u && u <= 0x27BF) || (0x2B00 <= u && u <= 0x2BFF) || (0xFE00
        <= u && u <= 0xFE0F) || u == 0x200D || (0x2190 <= u && u <= 0x21FF)
}

/// Characters allowed beside hiragana in an unconverted answer.
pub open spec fn kana_filler(c: char) -> bool {
    c == 'ー' || c == '、' || c == '。' || c == '！' || c == '？' || c == '　' || c == ' '
}

/// `s` holds hiragana and otherwise only long vowel marks, punctuation and
/// spaces.
pub open spec fn hiragana_answer(s: Seq<char>) -> bool {
    &&& forall|i: int| 0 <= i < s.len() ==> is_hiragana_letter(#[trigger] s[i]) || kana_filler(s[i])
    &&& exists|i: int| 0 <= i < s.len() && is_hiragana_letter(#[trigger] s[i])
}

/// Whether the text is hiragana (with long vowel marks, punctuation and
/// spaces) and holds at least one hiragana letter.
pub fn is_all_hiragana(s: &str) -> (r: bool)
    ensures
        r == hiragana_answer(s@),
{
    let cs = chars_of(s);
    let mut has_kana = false;
    let mut i: usize = 0;
    while i < cs.len()
        invariant
            cs@ == s@,
            i <= cs@.len(),
            forall|k: int| 0 <= k < i ==> is_hiragana_letter(#[trigger] cs@[k]) || kana_filler(cs@[k]),
            has_kana == exists|k: int| 0 <= k < i && is_hiragana_letter(#[trigger] cs@[k]),
        decreases cs@.len() - i,
    {
        let c = cs[i];
        let u = c as u32;
        if 0x3041 <= u && u <= 0x3096 {
            has_kana = true;
        } else if c == 'ー' || c == '、' || c == '。' || c == '！' || c == '？' || c == '　' || c == ' ' {
        } else {
            return false;
        }
        i += 1;
    }
    has_kana
}

/// Number of katakana letters (U+30A1 to U+30FA) in `s`.
pub open spec fn katakana_count(s: Seq<char>) -> nat
    decreases s.len(),
{
    if s.len() == 0 {
        0
    } else {
        katakana_count(s.drop_last()) + if 0x30A1 <= (s.last() as u32) && (s.last() as u32) <= 0x30FA {
            1nat
        } else {
            0nat
        }
    }
}

/// Counts the katakana letters of `s`.
pub fn count_katakana(s: &str) -> (r: usize)
    ensures
        r == katakana_count(s@),
{
    let cs = chars_of(s);
    let mut n: usize = 0;
    let mut i: usize = 0;
    while i < cs.len()
        invariant
            cs@ == s@,
            i <= cs@.len(),
            n == katakana_count(cs@.take(i as int)),
            n <= i,
        decreases cs@.len() - i,
    {
        let u = cs[i] as u32;
        assert(cs@.take(i + 1).drop_last() =~= cs@.take(i as int));
        if 0x30A1 <= u && u <= 0x30FA {
            n += 1;
        }
        i += 1;
    }
    assert(cs@.take(cs@.len() as int) =~= cs@);
    n
}

/// An answer that is an instruction or a preamble rather than a result.
pub open spec fn meta_answer(s: Seq<char>) -> bool {
    ||| seq_starts_with(s, "#"@)
    ||| seq_contains_seq(s, "指示"@)
    ||| seq_contains_seq(s, "下書き"@)
    ||| seq_contains_seq(s, "修正します"@)
    ||| seq_contains_seq(s, "以下"@)
    ||| seq_contains_seq(s, "```"@)
}

/// Whether the answer looks like an instruction or a preamble.
pub fn looks_like_meta(s: &str) -> (r: bool)
    ensures
        r == meta_answer(s@),
{
    let cs = chars_of(s);
    crate::text::starts_with_str(cs.as_slice(), "#") || contains_str(cs.as_slice(), "指示") || contains_str(
        cs.as_slice(),
        "下書き",
    ) || contains_str(cs.as_slice(), "修正します") || contains_str(cs.as_slice(), "以下") || contains_str(
        cs.as_slice(),
        "```",
    )
}

/// The lines of `s`, split at line feeds.
pub open spec fn split_lines(s: Seq<char>) -> Seq<Seq<char>>
    decreases s.len(),
{
    if s.len() == 0 {
        seq![Seq::empty()]
    } else {
        let prev = split_lines(s.drop_last());
        if s.last() == '\n' {
            prev.push(Seq::empty())
        } else {
            prev.update(prev.len() - 1, prev.last().push(s.last()))
        }
    }
}

/// A line, trimmed, that can be the answer: not empty, not a heading and
/// not a preamble.
pub open spec fn answer_line(l: Seq<char>) -> bool {
    let t = trim_ws(l);
    t.len() > 0 && !seq_starts_with(t, "#"@) && !seq_contains_seq(t, "以下"@)
}

/// The first answer line of `lines`, trimmed (empty when none).
pub open spec fn first_answer(lines: Seq<Seq<char>>) -> Seq<char>
    decreases lines.len(),
{
    if lines.len() == 0 {
        Seq::empty()
    } else if answer_line(lines[0]) {
        trim_ws(lines[0])
    } else {
        first_answer(lines.drop_first())
    }
}

/// The part after the last arrow, trimmed; the line itself when it has no
/// arrow.
pub open spec fn after_arrow(l: Seq<char>) -> Seq<char> {
    if exists|i: int| 0 <= i < l.len() && l[i] == '→' {
        let i = choose|i: int| 0 <= i < l.len() && l[i] == '→' && forall|j: int| i < j < l.len() ==> l[j] != '→';
        trim_ws(l.skip(i + 1))
    } else {
        l
    }
}

/// What `clean_output` keeps of an answer: the first answer line, the part
/// after its last arrow, without quotes at the ends and without emoji.
pub open spec fn cleaned(text: Seq<char>) -> Seq<char> {
    trim_by(after_arrow(first_answer(split_lines(text))), quote_class()).filter(|c: char| !emoji_or_symbol(c))
}

/// Splits at line feeds.
fn lines_exec(cs: &Vec<char>) -> (r: Vec<Vec<char>>)
    ensures
        r@.len() == split_lines(cs@).len(),
        forall|k: int| 0 <= k < r@.len() ==> (#[trigger] r@[k])@ == split_lines(cs@)[k],
{
    let mut out: Vec<Vec<char>> = Vec::new();
    let mut cur: Vec<char> = Vec::new();
    let mut i: usize = 0;
    assert(cs@.take(0) =~= Seq::<char>::empty());
    while i < cs.len()
        invariant
            i <= cs@.len(),
            out@.len() + 1 == split_lines(cs@.take(i as int)).len(),
            forall|k: int| 0 <= k < out@.len() ==> (#[trigger] out@[k])@ == split_lines(cs@.take(i as int))[k],
            cur@ == split_lines(cs@.take(i as int)).last(),
        decreases cs@.len() - i,
    {
        let ghost prev = split_lines(cs@.take(i as int));
        assert(cs@.take(i + 1).drop_last() =~= cs@.take(i as int));
        assert(cs@.take(i + 1).last() == cs@[i as int]);
        if cs[i] == '\n' {
            let done = cur;
            out.push(done);
            cur = Vec::new();
            assert(cur@ =~= Seq::<char>::empty());
        } else {
            cur.push(cs[i]);
            assert forall|k: int| 0 <= k < out@.len() implies (#[trigger] out@[k])@ == split_lines(cs@.take(i + 1))[k] by {
                assert(split_lines(cs@.take(i + 1))[k] == prev[k]);
            }
        }
        i += 1;
    }
    out.push(cur);
    assert(cs@.take(cs@.len() as int) =~= cs@);
    out
}

/// The part after the last arrow of `l`, trimmed; `l` when it has none.
fn after_arrow_exec(l: &Vec<char>) -> (r: Vec<char>)
    ensures
        r@ == after_arrow(l@),
{
    let mut k: usize = l.len();
    while k > 0 && l[k - 1] != '→'
        invariant
            k <= l@.len(),
            forall|j: int| k <= j < l@.len() ==> l@[j] != '→',
        decreases k,
    {
        k -= 1;
    }
    if k == 0 {
        assert(!exists|i: int| 0 <= i < l@.len() && l@[i] == '→');
        let r = crate::text::vec_from_range(l.as_slice(), 0, l.len());
        assert(r@ =~= l@);
        r
    } else {
        let i = k - 1;
        proof {
            let c = choose|c: int| 0 <= c < l@.len() && l@[c] == '→' && forall|j: int| c < j < l@.len() ==> l@[j] != '→';
            if c < i {
                assert(l@[i as int] == '→');
            }
            if c > i {
                assert(l@[c] != '→');
            }
            assert(c == i);
        }
        let rest = crate::text::vec_from_range(l.as_slice(), k, l.len());
        assert(rest@ =~= l@.skip(k as int));
        trim_exec(&rest, 0)
    }
}

/// What is kept of a model's answer: its first line that is not empty,
/// not a heading and not a preamble, the part after its last arrow,
/// without quotes at the ends and without emoji.
pub fn clean_output(text: &str) -> (r: String)
    ensures
        r@ == cleaned(text@),
{
    let cs = chars_of(text);
    let lines = lines_exec(&cs);
    let ghost ls = split_lines(cs@);
    let mut chosen: Vec<char> = Vec::new();
    let mut k: usize = 0;
    assert(ls.skip(0) =~= ls);
    assert(ls.skip(ls.len() as int) =~= Seq::<Seq<char>>::empty());
    while k < lines.len()
        invariant_except_break
            chosen@.len() == 0,
            first_answer(ls) == first_answer(ls.skip(k as int)),
        invariant
            lines@.len() == ls.len(),
            forall|j: int| 0 <= j < lines@.len() ==> (#[trigger] lines@[j])@ == ls[j],
            k <= lines@.len(),
            ls.skip(ls.len() as int) == Seq::<Seq<char>>::empty(),
        ensures
            chosen@ == first_answer(ls),
        decreases lines@.len() - k,
    {
        let t = trim_exec(&lines[k], 0);
        assert(ls.skip(k as int)[0] == ls[k as int]);
        assert(ls.skip(k as int).drop_first() =~= ls.skip(k + 1));
        if t.len() > 0 && !crate::text::starts_with_str(t.as_slice(), "#") && !contains_str(t.as_slice(), "以下") {
            chosen = t;
            break;
        }
        k += 1;
    }

    let after = after_arrow_exec(&chosen);
    let stripped = trim_exec(&after, 1);
    let mut out = String::new();
    let mut i: usize = 0;
    while i < stripped.len()
        invariant
            i <= stripped@.len(),
            out@ == stripped@.take(i as int).filter(|c: char| !emoji_or_symbol(c)),
        decreases stripped@.len() - i,
    {
        let c = stripped[i];
        proof {
            assert(stripped@.take(i + 1).drop_last() =~= stripped@.take(i as int));
            assert(stripped@.take(i + 1).last() == c);
            reveal(Seq::filter);
        }
        if !is_emoji_or_symbol(c) {
            push_char(&mut out, c);
        }
        i += 1;
    }
    assert(stripped@.take(stripped@.len() as int) =~= stripped@);
    out
}


/// The fixed start of the conversion prompt.
pub open spec fn prompt_head() -> Seq<char> {
    "# 指示\nあなたはかな漢字変換器です。次のひらがなの読みを、音を一切変えずに漢字かな交じり表記へ書き換えます。\n禁止: 語の追加・削除、言い換え、要約、翻訳、英語の使用。読みの音は入力と完全に一致させる。助詞「は/へ/を」は文法どおりに表記する。\n必ず適切な漢字に変換する。ひらがなのまま出力してはいけない。\n出力は変換後の1行のみ。説明・引用符・記号の装飾を付けない。\n# 例\nにゅうりょく → 入力\nかいぎのしりょうをつくる → 会議の資料を作る\nえきできしゃをまつ → 駅で汽車を待つ\nしんぶんきしゃにあう → 新聞記者に会う\nきょうはいいてんきです → 今日はいい天気です\n# 変換\n"@
}

/// The context line of the conversion prompt (empty for a blank context).
pub open spec fn prompt_context(context: Seq<char>) -> Seq<char> {
    if trim_ws(context).len() == 0 {
        Seq::empty()
    } else {
        "直前までの文章（文脈のみ。出力に含めない）: 「"@ + trim_ws(context) + "」\n"@
    }
}

/// The conversion prompt for `reading` after `context`.
pub open spec fn prompt_text(reading: Seq<char>, context: Seq<char>) -> Seq<char> {
    prompt_head() + prompt_context(context) + reading + " → "@
}

/// Trims white space from both ends of a string.
pub fn trim_text(s: &str) -> (r: Vec<char>)
    ensures
        r@ == trim_ws(s@),
{
    let cs = chars_of(s);
    trim_exec(&cs, 0)
}

fn append_vec(out: &mut String, v: &Vec<char>)
    ensures
        final(out)@ == old(out)@ + v@,
{
    let mut i: usize = 0;
    while i < v.len()
        invariant
            i <= v@.len(),
            out@ == old(out)@ + v@.take(i as int),
        decreases v@.len() - i,
    {
        push_char(out, v[i]);
        assert(v@.take(i + 1) =~= v@.take(i as int).push(v@[i as int]));
        i += 1;
    }
    assert(v@.take(v@.len() as int) =~= v@);
}

/// Builds the prompt that asks the model to write `reading` in kanji and
/// kana, with the text committed before it as context.
pub fn build_prompt(reading: &str, context: &str) -> (r: String)
    ensures
        r@ == prompt_text(reading@, context@),
{
    let mut out = String::new();
    append_chars(&mut out, "# 指示\nあなたはかな漢字変換器です。次のひらがなの読みを、音を一切変えずに漢字かな交じり表記へ書き換えます。\n禁止: 語の追加・削除、言い換え、要約、翻訳、英語の使用。読みの音は入力と完全に一致させる。助詞「は/へ/を」は文法どおりに表記する。\n必ず適切な漢字に変換する。ひらがなのまま出力してはいけない。\n出力は変換後の1行のみ。説明・引用符・記号の装飾を付けない。\n# 例\nにゅうりょく → 入力\nかいぎのしりょうをつくる → 会議の資料を作る\nえきできしゃをまつ → 駅で汽車を待つ\nしんぶんきしゃにあう → 新聞記者に会う\nきょうはいいてんきです → 今日はいい天気です\n# 変換\n");
    let ctx = trim_text(context);
    if ctx.len() > 0 {
        append_chars(&mut out, "直前までの文章（文脈のみ。出力に含めない）: 「");
        append_vec(&mut out, &ctx);
        append_chars(&mut out, "」\n");
    }
    append_chars(&mut out, reading);
    append_chars(&mut out, " → ");
    assert(out@ =~= prompt_text(reading@, context@));
    out
}

/// The prompt to send for a conversion of `reading`; none for a blank
/// reading, which is never sent.
pub fn conversion_request(reading: &str, context: &str) -> (r: Option<String>)
    ensures
        match r {
            Some(p) => trim_ws(reading@).len() > 0 && p@ == prompt_text(reading@, context@),
            None => trim_ws(reading@).len() == 0,
        },
{
    if is_blank(reading) {
        return None;
    }
    Some(build_prompt(reading, context))
}

/// The model's answer to a conversion, accepted: cleaned, and neither
/// empty, nor the reading itself, nor still hiragana.
pub open spec fn accepted_conversion(reading: Seq<char>, text: Seq<char>) -> Option<Seq<char>> {
    let c = cleaned(text);
    if c.len() == 0 || c == reading || hiragana_answer(c) {
        None
    } else {
        Some(c)
    }
}

/// Checks the model's answer `text` to a conversion of `reading`.
pub fn accept_conversion(reading: &str, text: &str) -> (r: Option<String>)
    ensures
        match r {
            Some(s) => accepted_conversion(reading@, text@) == Some(s@),
            None => accepted_conversion(reading@, text@) is None,
        },
{
    let cleaned = clean_output(text);
    let cc = chars_of(cleaned.as_str());
    let rc = chars_of(reading);
    if cc.len() == 0 {
        return None;
    }
    if chars_eq(cc.as_slice(), rc.as_slice()) || is_all_hiragana(cleaned.as_str()) {
        return None;
    }
    Some(cleaned)
}

/// The context line of the correction and choice prompts.
pub open spec fn so_far_context(context: Seq<char>) -> Seq<char> {
    if trim_ws(context).len() == 0 {
        Seq::empty()
    } else {
        "これまでの文章: 「"@ + trim_ws(context) + "」\n"@
    }
}

fn append_so_far(out: &mut String, context: &str)
    ensures
        final(out)@ == old(out)@ + so_far_context(context@),
{
    let ctx = trim_text(context);
    if ctx.len() > 0 {
        append_chars(out, "これまでの文章: 「");
        append_vec(out, &ctx);
        append_chars(out, "」\n");
    }
    assert(final(out)@ =~= old(out)@ + so_far_context(context@));
}

/// The reference candidates of the correction prompt: the first three,
/// each followed by a slash.
pub open spec fn candidate_block(cands: Seq<Seq<char>>) -> Seq<char> {
    if cands.len() == 0 {
        Seq::empty()
    } else {
        "参考候補: "@ + cand_list(cands, if cands.len() < 3 { cands.len() } else { 3 }) + "\n"@
    }
}

pub open spec fn cand_list(cands: Seq<Seq<char>>, n: nat) -> Seq<char>
    decreases n,
{
    if n == 0 {
        Seq::empty()
    } else {
        cand_list(cands, (n - 1) as nat) + cands[n - 1] + " / "@
    }
}

/// The correction prompt for the draft `draft` of `reading`.
pub open spec fn correction_prompt(draft: Seq<char>, cands: Seq<Seq<char>>, context: Seq<char>) -> Seq<char> {
    "次の日本語の下書きから、誤字・文法（は/へ/を、送り仮名 等）だけを直し、正しい一文にしてください。意味・語順・語尾は変えない。読みに無い語を足さない。既に正しければそのまま。出力は一文のみ。\n例: 今日わ会議がある → 今日は会議がある\n例: 資料お作る → 資料を作る\n"@
        + so_far_context(context) + candidate_block(cands) + "下書き: "@ + draft + " → "@
}

/// The number of tokens the model may answer with: the reading's length
/// plus 16, kept between 24 and 96.
pub open spec fn predict_len(reading: Seq<char>) -> int {
    let v: int = reading.len() as int + 16;
    if v < 24 {
        24
    } else if v > 96 {
        96
    } else {
        v
    }
}

/// The correction request for the draft of `reading`: the prompt and the
/// answer length; none when the reading or the draft is blank.
pub fn correction_request(reading: &str, draft: &str, candidates: &Vec<String>, context: &str) -> (r: Option<(String, i64)>)
    ensures
        match r {
            Some((p, n)) => trim_ws(reading@).len() > 0 && trim_ws(draft@).len() > 0
                && p@ == correction_prompt(draft@, candidates@.map_values(|c: String| c@), context@)
                && n == predict_len(reading@),
            None => trim_ws(reading@).len() == 0 || trim_ws(draft@).len() == 0,
        },
{
    if is_blank(reading) || is_blank(draft) {
        return None;
    }
    let mut out = String::new();
    append_chars(&mut out, "次の日本語の下書きから、誤字・文法（は/へ/を、送り仮名 等）だけを直し、正しい一文にしてください。意味・語順・語尾は変えない。読みに無い語を足さない。既に正しければそのまま。出力は一文のみ。\n例: 今日わ会議がある → 今日は会議がある\n例: 資料お作る → 資料を作る\n");
    append_so_far(&mut out, context);
    let ghost cv = candidates@.map_values(|c: String| c@);
    if candidates.len() > 0 {
        append_chars(&mut out, "参考候補: ");
        let lim: usize = if candidates.len() < 3 {
            candidates.len()
        } else {
            3
        };
        let ghost before = out@;
        let mut i: usize = 0;
        while i < lim
            invariant
                i <= lim <= candidates@.len(),
                cv == candidates@.map_values(|c: String| c@),
                out@ == before + cand_list(cv, i as nat),
            decreases lim - i,
        {
            append_chars(&mut out, candidates[i].as_str());
            append_chars(&mut out, " / ");
            assert(cv[i as int] == candidates@[i as int]@);
            i += 1;
        }
        append_chars(&mut out, "\n");
    }
    append_chars(&mut out, "下書き: ");
    append_chars(&mut out, draft);
    append_chars(&mut out, " → ");
    let rc = chars_of(reading);
    let v: usize = if rc.len() > 80 {
        96
    } else if rc.len() + 16 < 24 {
        24
    } else {
        rc.len() + 16
    };
    assert(out@ =~= correction_prompt(draft@, cv, context@));
    Some((out, v as i64))
}

/// The model's answer to a correction, accepted: cleaned, not empty, not
/// hiragana, not a preamble, and with no more katakana than the draft.
pub open spec fn accepted_correction(draft: Seq<char>, text: Seq<char>) -> Option<Seq<char>> {
    let c = cleaned(text);
    if c.len() == 0 || hiragana_answer(c) || meta_answer(c) || katakana_count(c) > katakana_count(draft) {
        None
    } else {
        Some(c)
    }
}

/// Checks the model's answer `text` to a correction of `draft`.
pub fn accept_correction(draft: &str, text: &str) -> (r: Option<String>)
    ensures
        match r {
            Some(s) => accepted_correction(draft@, text@) == Some(s@),
            None => accepted_correction(draft@, text@) is None,
        },
{
    let cleaned = clean_output(text);
    let cc = chars_of(cleaned.as_str());
    if cc.len() == 0 || is_all_hiragana(cleaned.as_str()) || looks_like_meta(cleaned.as_str()) {
        return None;
    }
    if count_katakana(cleaned.as_str()) > count_katakana(draft) {
        return None;
    }
    Some(cleaned)
}

/// The numbered list of the choice prompt.
pub open spec fn numbered(cands: Seq<Seq<char>>, n: nat) -> Seq<char>
    decreases n,
{
    if n == 0 {
        Seq::empty()
    } else {
        numbered(cands, (n - 1) as nat) + seq![(0x30 + n) as char] + ". "@ + cands[n - 1] + "\n"@
    }
}

/// The prompt that asks the model to choose among the first `n`
/// candidates.
pub open spec fn choice_prompt(reading: Seq<char>, context: Seq<char>, cands: Seq<Seq<char>>, n: nat) -> Seq<char> {
    "次はひらがな「"@ + reading + "」を漢字かな交じりに変換した候補です。\n"@ + so_far_context(context)
        + "文脈に最も合う自然で正しい日本語はどれですか。番号だけを半角数字1文字で答えてください（説明不要）。\n"@
        + numbered(cands, n) + "答え: "@
}

/// The choice request: the prompt and how many candidates it lists (at
/// most nine); none for fewer than two candidates.
pub fn choice_request(reading: &str, context: &str, candidates: &Vec<String>) -> (r: Option<(String, usize)>)
    ensures
        match r {
            Some((p, n)) => candidates@.len() >= 2 && n == (if candidates@.len() < 9 { candidates@.len() } else { 9 })
                && p@ == choice_prompt(reading@, context@, candidates@.map_values(|c: String| c@), n as nat),
            None => candidates@.len() < 2,
        },
{
    if candidates.len() < 2 {
        return None;
    }
    let n: usize = if candidates.len() < 9 {
        candidates.len()
    } else {
        9
    };
    let ghost cv = candidates@.map_values(|c: String| c@);
    let mut out = String::new();
    append_chars(&mut out, "次はひらがな「");
    append_chars(&mut out, reading);
    append_chars(&mut out, "」を漢字かな交じりに変換した候補です。\n");
    append_so_far(&mut out, context);
    append_chars(&mut out, "文脈に最も合う自然で正しい日本語はどれですか。番号だけを半角数字1文字で答えてください（説明不要）。\n");
    let ghost before = out@;
    let mut i: usize = 0;
    while i < n
        invariant
            i <= n <= 9,
            n <= candidates@.len(),
            cv == candidates@.map_values(|c: String| c@),
            out@ == before + numbered(cv, i as nat),
        decreases n - i,
    {
        let d = crate::text::char_of_digit((i + 1) as u32);
        push_char(&mut out, d);
        append_chars(&mut out, ". ");
        append_chars(&mut out, candidates[i].as_str());
        append_chars(&mut out, "\n");
        assert(cv[i as int] == candidates@[i as int]@);
        i += 1;
    }
    append_chars(&mut out, "答え: ");
    assert(out@ =~= choice_prompt(reading@, context@, cv, n as nat));
    Some((out, n))
}

/// An ASCII decimal digit.
pub open spec fn is_digit(c: char) -> bool {
    '0' <= c && c <= '9'
}

/// The index the model chose: the first digit of the answer, less one,
/// when it is a listed number.
pub open spec fn chosen_index(text: Seq<char>, n: nat) -> Option<nat> {
    if exists|i: int| 0 <= i < text.len() && is_digit(text[i]) {
        let i = choose|i: int| 0 <= i < text.len() && is_digit(text[i]) && forall|j: int| 0 <= j < i ==> !is_digit(text[j]);
        let d = (text[i] as u32) - 0x30;
        if 1 <= d && d - 1 < n {
            Some((d - 1) as nat)
        } else {
            None
        }
    } else {
        None
    }
}

/// Reads the model's choice among `n` candidates from its answer.
pub fn parse_choice(text: &str, n: usize) -> (r: Option<usize>)
    ensures
        match r {
            Some(k) => chosen_index(text@, n as nat) == Some(k as nat),
            None => chosen_index(text@, n as nat) is None,
        },
{
    let cs = chars_of(text);
    let mut i: usize = 0;
    while i < cs.len()
        invariant
            cs@ == text@,
            i <= cs@.len(),
            forall|j: int| 0 <= j < i ==> !is_digit(#[trigger] cs@[j]),
        decreases cs@.len() - i,
    {
        let c = cs[i];
        if '0' <= c && c <= '9' {
            proof {
                let w = choose|w: int| 0 <= w < text@.len() && is_digit(text@[w]) && forall|j: int| 0 <= j < w ==> !is_digit(text@[j]);
                if w < i {
                    assert(!is_digit(cs@[w]));
                }
                if w > i {
                    assert(!is_digit(text@[i as int]));
                }
                assert(w == i);
            }
            let d = (c as u32) - 0x30;
            if d >= 1 && ((d - 1) as usize) < n {
                return Some((d - 1) as usize);
            }
            return None;
        }
        i += 1;
    }
    None
}

/// The URL that lists the server's models, from the generation URL.
pub open spec fn tags_url_of(url: Seq<char>) -> Seq<char> {
    if seq_contains_seq(url, "/api/generate"@) {
        replace_all(url, "/api/generate"@, "/api/tags"@)
    } else {
        url
    }
}

/// The URL that lists the server's models: the generation URL with
/// `/api/generate` replaced by `/api/tags`.
pub fn tags_url(url: &str) -> (r: String)
    ensures
        r@ == tags_url_of(url@),
{
    let cs = chars_of(url);
    if !contains_str(cs.as_slice(), "/api/generate") {
        return string_from_chars(cs.as_slice());
    }
    let pat = chars_of("/api/generate");
    let rep = chars_of("/api/tags");
    let out = replace_chars(cs.as_slice(), pat.as_slice(), rep.as_slice());
    string_from_chars(out.as_slice())
}

/// Value of a string of decimal digits.
pub open spec fn decimal_value(t: Seq<char>) -> nat
    decreases t.len(),
{
    if t.len() == 0 {
        0
    } else {
        decimal_value(t.drop_last()) * 10 + ((t.last() as u32) - 0x30) as nat
    }
}

/// `s` without a leading plus sign.
pub open spec fn digits_part(s: Seq<char>) -> Seq<char> {
    if s.len() > 0 && s[0] == '+' {
        s.drop_first()
    } else {
        s
    }
}

pub open spec fn all_digits(t: Seq<char>) -> bool {
    forall|i: int| 0 <= i < t.len() ==> is_digit(#[trigger] t[i])
}

/// The unsigned number `s` spells: an optional plus sign and at least one
/// decimal digit, of a value that fits in 64 bits.
pub open spec fn parsed_u64(s: Seq<char>) -> Option<u64> {
    let t = digits_part(s);
    if t.len() == 0 || !all_digits(t) {
        None
    } else if decimal_value(t) > u64::MAX {
        None
    } else {
        Some(decimal_value(t) as u64)
    }
}

proof fn lemma_decimal_grows(t: Seq<char>, k: int)
    requires
        0 <= k <= t.len(),
        all_digits(t),
    ensures
        decimal_value(t.take(k)) <= decimal_value(t),
    decreases t.len() - k,
{
    if k < t.len() {
        lemma_decimal_grows(t, k + 1);
        assert(t.take(k + 1).drop_last() =~= t.take(k));
    } else {
        assert(t.take(k) =~= t);
    }
}

/// Parses an unsigned 64-bit decimal number.
pub fn parse_u64(s: &str) -> (r: Option<u64>)
    ensures
        r == parsed_u64(s@),
{
    let cs = chars_of(s);
    let start: usize = if cs.len() > 0 && cs[0] == '+' {
        1
    } else {
        0
    };
    let ghost t = digits_part(s@);
    assert(t =~= cs@.skip(start as int));
    if cs.len() == start {
        return None;
    }
    let mut i: usize = start;
    while i < cs.len()
        invariant
            start <= i <= cs@.len(),
            t == digits_part(s@),
            t == cs@.skip(start as int),
            forall|j: int| start <= j < i ==> is_digit(#[trigger] cs@[j]),
        decreases cs@.len() - i,
    {
        if !('0' <= cs[i] && cs[i] <= '9') {
            assert(t[i - start] == cs@[i as int]);
            assert(!all_digits(t));
            return None;
        }
        i += 1;
    }
    assert(all_digits(t)) by {
        assert forall|j: int| 0 <= j < t.len() implies is_digit(#[trigger] t[j]) by {
            assert(t[j] == cs@[start + j]);
        }
    }
    let mut v: u64 = 0;
    let mut k: usize = start;
    while k < cs.len()
        invariant
            start <= k <= cs@.len(),
            t == digits_part(s@),
            t == cs@.skip(start as int),
            all_digits(t),
            v == decimal_value(t.take(k - start)),
        decreases cs@.len() - k,
    {
        proof {
            assert(t[k - start] == cs@[k as int]);
            assert(is_digit(t[k - start]));
        }
        let d = (cs[k] as u32 - 0x30) as u64;
        proof {
            assert(t.take(k - start + 1).drop_last() =~= t.take(k - start));
            assert(t.take(k - start + 1).last() == cs@[k as int]);
        }
        if v > (u64::MAX - d) / 10 {
            proof {
                assert(v * 10 + d > u64::MAX) by (nonlinear_arith)
                    requires
                        v > (u64::MAX - d) / 10,
                        d <= 9,
                ;
                lemma_decimal_grows(t, k - start + 1);
                assert(decimal_value(t.take(k - start + 1)) == v * 10 + d);
            }
            return None;
        }
        assert(v * 10 + d <= u64::MAX) by (nonlinear_arith)
            requires
                v <= (u64::MAX - d) / 10,
                d <= 9,
        ;
        v = v * 10 + d;
        k += 1;
    }
    assert(t.take(t.len() as int) =~= t);
    Some(v)
}

impl LlmConfig {
    /// Settings from the values of the three settings variables: the URL
    /// (default the local Ollama endpoint), the model (default `qwen2.5:3b`) and
    /// the timeout in milliseconds (default 8000, also when it is not a
    /// number).
    pub fn from_env_values(url: Option<String>, model: Option<String>, timeout: Option<String>) -> (r: Self)
        ensures
            r.url@ == (match url {
                Some(u) => u@,
                None => "http://localhost:11434/api/generate"@,
            }),
            r.model@ == (match model {
                Some(m) => m@,
                None => "qwen2.5:3b"@,
            }),
            r.timeout_ms == (match timeout {
                Some(t) => match parsed_u64(t@) {
                    Some(v) => v,
                    None => 8000,
                },
                None => 8000,
            }),
    {
        let url = match url {
            Some(u) => u,
            None => "http://localhost:11434/api/generate".to_owned(),
        };
        let model = match model {
            Some(m) => m,
            None => "qwen2.5:3b".to_owned(),
        };
        let timeout_ms = match timeout {
            Some(t) => match parse_u64(t.as_str()) {
                Some(v) => v,
                None => 8000,
            },
            None => 8000,
        };
        LlmConfig { url, model, timeout_ms }
    }
}
} // verus!
