//! Decisions of a live conversion session: the edit that updates the text
//! shown, which segment the candidate list targets and how its candidates
//! are ordered, how far Esc reverts to kana, what a commit teaches the
//! learning store, and the checks that spot a failed conversion.

use vstd::prelude::*;
use crate::dictionary::{WordEntry, WordSpec, entries_view};
use crate::convert::join_surfaces;
use crate::keys::{is_learnable_pair, learnable, is_single_kanji_entry, single_kanji, single_kanji_penalty, vowel_combos, vowel_strings};
use crate::romaji::{RomajiConverter, trailing_alpha};
use crate::viterbi::ViterbiConverter;
use crate::scoring::{content_pos, is_content_pos};
use crate::text::{chars_of, chars_eq, contains_str, seq_contains_seq, string_from_chars, string_from_range,
    is_ascii_alpha, is_ascii_alphabetic, hiragana_to_katakana, to_katakana_seq};

verus! {

/// An edit of the text shown: delete this many characters before the
/// cursor, then type this text.
pub struct ConversionAction {
    pub delete_count: usize,
    pub insert_text: String,
}

/// Length of the longest common prefix.
pub open spec fn common_prefix_len(a: Seq<char>, b: Seq<char>) -> nat
    decreases a.len(),
{
    if a.len() == 0 || b.len() == 0 || a[0] != b[0] {
        0
    } else {
        1 + common_prefix_len(a.drop_first(), b.drop_first())
    }
}

/// The text shown after an edit.
pub open spec fn apply_edit(shown: Seq<char>, delete_count: nat, insert: Seq<char>) -> Seq<char> {
    shown.take(shown.len() - delete_count) + insert
}

proof fn lemma_common_prefix(a: Seq<char>, b: Seq<char>)
    ensures
        common_prefix_len(a, b) <= a.len(),
        common_prefix_len(a, b) <= b.len(),
        a.take(common_prefix_len(a, b) as int) == b.take(common_prefix_len(a, b) as int),
        common_prefix_len(a, b) < a.len() && common_prefix_len(a, b) < b.len() ==> a[common_prefix_len(a, b) as int]
            != b[common_prefix_len(a, b) as int],
    decreases a.len(),
{
    if a.len() == 0 || b.len() == 0 || a[0] != b[0] {
        assert(a.take(0) =~= b.take(0));
    } else {
        lemma_common_prefix(a.drop_first(), b.drop_first());
        let n = common_prefix_len(a.drop_first(), b.drop_first());
        assert(a.take(n + 1 as int) =~= seq![a[0]] + a.drop_first().take(n as int));
        assert(b.take(n + 1 as int) =~= seq![b[0]] + b.drop_first().take(n as int));
    }
}

/// The edit that turns the text shown, `old`, into `new`: delete what
/// follows their common prefix and type the rest of `new`; none when they
/// are the same.
pub fn edit_action(old: &str, new: &str) -> (r: Option<ConversionAction>)
    ensures
        r is None <==> old@ == new@,
        r matches Some(a) ==> {
            &&& a.delete_count == old@.len() - common_prefix_len(old@, new@)
            &&& a.insert_text@ == new@.skip(common_prefix_len(old@, new@) as int)
        },
{
    let o = chars_of(old);
    let n = chars_of(new);
    proof {
        lemma_common_prefix(o@, n@);
    }
    let mut k: usize = 0;
    assert(o@.skip(0) =~= o@);
    assert(n@.skip(0) =~= n@);
    while k < o.len() && k < n.len() && o[k] == n[k]
        invariant
            k <= o.len(),
            k <= n.len(),
            o@ == old@,
            n@ == new@,
            common_prefix_len(o@.skip(k as int), n@.skip(k as int)) + k == common_prefix_len(o@, n@),
        decreases o.len() - k,
    {
        proof {
            assert(o@.skip(k as int).drop_first() =~= o@.skip(k + 1));
            assert(n@.skip(k as int).drop_first() =~= n@.skip(k + 1));
            assert(o@.skip(k as int)[0] == o@[k as int]);
            assert(n@.skip(k as int)[0] == n@[k as int]);
        }
        k += 1;
    }
    if k == o.len() && k == n.len() {
        assert(o@ =~= n@) by {
            assert(o@ =~= o@.take(k as int));
            assert(n@ =~= n@.take(k as int));
        }
        return None;
    }
    proof {
        if o@ == n@ {
            assert(k < o.len() && k < n.len() && o@[k as int] == n@[k as int]);
        }
    }
    Some(ConversionAction { delete_count: o.len() - k, insert_text: string_from_range(n.as_slice(), k, n.len()) })
}

/// The edit of `edit_action` turns the old text into the new one.
pub proof fn law_edit_reaches_new(old: Seq<char>, new: Seq<char>)
    ensures
        apply_edit(old, (old.len() - common_prefix_len(old, new)) as nat, new.skip(common_prefix_len(old, new) as int))
            == new,
{
    lemma_common_prefix(old, new);
    let c = common_prefix_len(old, new) as int;
    assert(old.take(old.len() - (old.len() - c)) =~= old.take(c));
    assert(new.take(c) + new.skip(c) =~= new);
}


/// The characters that are not ASCII letters (left-over romaji dropped).
pub open spec fn without_latin(s: Seq<char>) -> Seq<char>
    decreases s.len(),
{
    if s.len() == 0 {
        s
    } else if is_ascii_alpha(s.last()) {
        without_latin(s.drop_last())
    } else {
        without_latin(s.drop_last()).push(s.last())
    }
}

/// A katakana letter of the range the failure check looks for.
pub open spec fn katakana_for_check(c: char) -> bool {
    0x30A1 <= (c as u32) && (c as u32) <= 0x30FA
}

/// Hiragana, or the long vowel mark.
pub open spec fn kana_for_check(c: char) -> bool {
    (0x3041 <= (c as u32) && (c as u32) <= 0x3096) || (c as u32) == 0x30FC
}

/// A conversion result looks failed: without its left-over romaji it has 2
/// to 16 characters, and it holds katakana or is all kana.
pub open spec fn looks_failed(result: Seq<char>) -> bool {
    let r = without_latin(result);
    &&& 2 <= r.len() <= 16
    &&& (exists|i: int| 0 <= i < r.len() && katakana_for_check(#[trigger] r[i])) || (forall|i: int|
        0 <= i < r.len() ==> kana_for_check(#[trigger] r[i]))
}

/// Whether a "did you mean" suggestion is looked for: no romaji is left
/// pending, the hiragana holds no ASCII letter, and the conversion looks
/// failed.
pub open spec fn suggestion_due(romaji: Seq<char>, hiragana: Seq<char>, conversion: Seq<char>) -> bool {
    &&& romaji.len() == 0
    &&& forall|k: int| 0 <= k < hiragana.len() ==> !crate::text::is_ascii_alpha(#[trigger] hiragana[k])
    &&& looks_failed(conversion)
}

/// Whether a "did you mean" suggestion is looked for, as `suggestion_due`
/// says.
pub fn fuzzy_suggestion_due(romaji: &str, hiragana: &str, conversion: &str) -> (r: bool)
    ensures
        r == suggestion_due(romaji@, hiragana@, conversion@),
{
    let rc = chars_of(romaji);
    if rc.len() > 0 {
        return false;
    }
    let hc = chars_of(hiragana);
    let mut k: usize = 0;
    while k < hc.len()
        invariant
            k <= hc@.len(),
            hc@ == hiragana@,
            forall|j: int| 0 <= j < k ==> !crate::text::is_ascii_alpha(#[trigger] hc@[j]),
        decreases hc@.len() - k,
    {
        if crate::text::is_ascii_alphabetic(hc[k]) {
            return false;
        }
        k += 1;
    }
    conversion_looks_failed(conversion)
}

/// Whether the conversion result looks failed, as `looks_failed` says.
pub fn conversion_looks_failed(result: &str) -> (r: bool)
    ensures
        r == looks_failed(result@),
{
    let cs = chars_of(result);
    let mut kept: Vec<char> = Vec::new();
    let mut i: usize = 0;
    assert(cs@.take(0) =~= Seq::<char>::empty());
    while i < cs.len()
        invariant
            i <= cs.len(),
            kept@ == without_latin(cs@.take(i as int)),
        decreases cs.len() - i,
    {
        assert(cs@.take(i + 1).drop_last() =~= cs@.take(i as int));
        if !is_ascii_alphabetic(cs[i]) {
            kept.push(cs[i]);
        }
        i += 1;
    }
    assert(cs@.take(cs.len() as int) =~= cs@);
    let n = kept.len();
    if n < 2 || n > 16 {
        return false;
    }
    let mut has_katakana = false;
    let mut all_kana = true;
    let mut j: usize = 0;
    while j < n
        invariant
            j <= n,
            n == kept@.len(),
            has_katakana == (exists|q: int| 0 <= q < j && katakana_for_check(#[trigger] kept@[q])),
            all_kana == (forall|q: int| 0 <= q < j ==> kana_for_check(#[trigger] kept@[q])),
        decreases n - j,
    {
        let u = kept[j] as u32;
        if 0x30A1 <= u && u <= 0x30FA {
            has_katakana = true;
        }
        if !((0x3041 <= u && u <= 0x3096) || u == 0x30FC) {
            all_kana = false;
        }
        j += 1;
    }
    has_katakana || all_kana
}

/// The last 60 characters of a text, or all of it when shorter.
pub open spec fn recent_tail(s: Seq<char>) -> Seq<char> {
    if s.len() > 60 {
        s.skip(s.len() - 60)
    } else {
        s
    }
}

/// The context kept for the language model after `added` was committed:
/// the last 60 characters of the context with it.
pub fn keep_recent(context: &str, added: &str) -> (r: String)
    ensures
        r@ == recent_tail(context@ + added@),
{
    let mut cs = chars_of(context);
    let ad = chars_of(added);
    let ghost c0 = cs@;
    let mut k: usize = 0;
    while k < ad.len()
        invariant
            k <= ad.len(),
            cs@ == c0 + ad@.take(k as int),
        decreases ad.len() - k,
    {
        cs.push(ad[k]);
        assert(ad@.take(k + 1) =~= ad@.take(k as int).push(ad@[k as int]));
        k += 1;
    }
    assert(ad@.take(ad.len() as int) =~= ad@);
    if cs.len() > 60 {
        let r = string_from_range(cs.as_slice(), cs.len() - 60, cs.len());
        assert(cs@.subrange(cs.len() - 60, cs.len() as int) =~= cs@.skip(cs.len() - 60));
        r
    } else {
        string_from_chars(cs.as_slice())
    }
}

/// Whether typing `s` settles into kana with no romaji left pending.
pub open spec fn settles(romaji: RomajiConverter, s: Seq<char>) -> bool {
    let c = romaji.spec_convert(s);
    trailing_alpha(c) == 0 && c.len() > 0
}

/// The vowels tried after a romaji tail.
pub open spec fn romaji_vowels() -> Seq<char> {
    seq!['a', 'i', 'u', 'e', 'o']
}

/// A romaji tail is stuck when it is not empty and no vowel after it lets
/// it settle: a typing mistake rather than a mora being typed.
pub open spec fn stuck_romaji(romaji: RomajiConverter, tail: Seq<char>) -> bool {
    tail.len() > 0 && forall|k: int| 0 <= k < 5 ==> !settles(romaji, tail.push(#[trigger] romaji_vowels()[k]))
}

fn with_char(s: &str, c: char) -> (r: String)
    ensures
        r@ == s@.push(c),
{
    let mut v = chars_of(s);
    v.push(c);
    string_from_chars(v.as_slice())
}

/// Whether the romaji tail is stuck, as `stuck_romaji` says.
pub fn is_stuck_romaji(romaji: &RomajiConverter, tail: &str) -> (r: bool)
    ensures
        r == stuck_romaji(*romaji, tail@),
{
    let t = chars_of(tail);
    if t.len() == 0 {
        return false;
    }
    let vowels = ['a', 'i', 'u', 'e', 'o'];
    assert(vowels@ == romaji_vowels());
    let mut k: usize = 0;
    while k < 5
        invariant
            k <= 5,
            vowels@ == romaji_vowels(),
            forall|q: int| 0 <= q < k ==> !settles(*romaji, tail@.push(#[trigger] romaji_vowels()[q])),
        decreases 5 - k,
    {
        let r = with_char(tail, vowels[k]);
        let (settled, pending) = romaji.split(r.as_str());
        let sc = chars_of(settled.as_str());
        let pc = chars_of(pending.as_str());
        proof {
            let c = romaji.spec_convert(tail@.push(romaji_vowels()[k as int]));
            crate::romaji::lemma_trailing_alpha_bound(c);
            let j = c.len() - trailing_alpha(c);
            assert(c =~= c.take(j) + c.skip(j));
        }
        if pc.len() == 0 && sc.len() > 0 {
            return false;
        }
        k += 1;
    }
    true
}

/// The kana that an edited mix of kana and romaji converts to, when no
/// romaji is left in it and it has two characters or more.
pub open spec fn settled_reading(romaji: RomajiConverter, edited: Seq<char>) -> Option<Seq<char>> {
    let c = romaji.spec_convert(edited);
    if c.len() >= 2 && forall|i: int| 0 <= i < c.len() ==> !is_ascii_alpha(#[trigger] c[i]) {
        Some(c)
    } else {
        None
    }
}

/// The settled reading of an edited input, as `settled_reading` says.
pub fn romaji_settle(romaji: &RomajiConverter, edited: &[char]) -> (r: Option<String>)
    ensures
        r matches Some(s) ==> settled_reading(*romaji, edited@) == Some(s@),
        r is None ==> settled_reading(*romaji, edited@) is None,
{
    let s = string_from_chars(edited);
    let conv = romaji.convert(s.as_str());
    let c = chars_of(conv.as_str());
    if c.len() < 2 {
        return None;
    }
    let mut i: usize = 0;
    while i < c.len()
        invariant
            i <= c.len(),
            c@ == romaji.spec_convert(edited@),
            forall|q: int| 0 <= q < i ==> !is_ascii_alpha(#[trigger] c@[q]),
        decreases c.len() - i,
    {
        if is_ascii_alphabetic(c[i]) {
            assert(is_ascii_alpha(c@[i as int]));
            return None;
        }
        i += 1;
    }
    Some(conv)
}

/// The labels of the predictions: the first is marked as a suggested
/// correction when it is one.
pub fn prediction_display(predictions: &Vec<(String, String)>, top_is_fuzzy: bool) -> (r: Vec<String>)
    ensures
        r@.len() == predictions@.len(),
        forall|i: int| 0 <= i < r@.len() ==> (#[trigger] r@[i])@ == (if i == 0 && top_is_fuzzy {
            "もしかして: "@ + predictions@[i].1@
        } else {
            predictions@[i].1@
        }),
{
    let mut r: Vec<String> = Vec::new();
    let mut i: usize = 0;
    while i < predictions.len()
        invariant
            i <= predictions@.len(),
            r@.len() == i,
            forall|q: int| 0 <= q < i ==> (#[trigger] r@[q])@ == (if q == 0 && top_is_fuzzy {
                "もしかして: "@ + predictions@[q].1@
            } else {
                predictions@[q].1@
            }),
        decreases predictions@.len() - i,
    {
        let sc = chars_of(predictions[i].1.as_str());
        if i == 0 && top_is_fuzzy {
            let mut label = chars_of("もしかして: ");
            let ghost l0 = label@;
            let mut k: usize = 0;
            while k < sc.len()
                invariant
                    k <= sc.len(),
                    label@ == l0 + sc@.take(k as int),
                decreases sc.len() - k,
            {
                label.push(sc[k]);
                assert(sc@.take(k + 1) =~= sc@.take(k as int).push(sc@[k as int]));
                k += 1;
            }
            assert(sc@.take(sc.len() as int) =~= sc@);
            r.push(string_from_chars(label.as_slice()));
        } else {
            r.push(string_from_chars(sc.as_slice()));
        }
        i += 1;
    }
    r
}


/// Committed segments as plain values: (reading, surface, part of speech).
pub open spec fn segments_view(v: Seq<(String, String, String)>) -> Seq<(Seq<char>, Seq<char>, Seq<char>)> {
    v.map_values(|t: (String, String, String)| (t.0@, t.1@, t.2@))
}

/// Pairs of texts as plain values.
pub open spec fn pairs_of(v: Seq<(String, String)>) -> Seq<(Seq<char>, Seq<char>)> {
    v.map_values(|t: (String, String)| (t.0@, t.1@))
}

/// A committed segment teaches its reading-to-surface conversion when it was
/// converted, the pair is learnable, and it is not a suffix.
pub open spec fn teaches_unigram(seg: (Seq<char>, Seq<char>, Seq<char>)) -> bool {
    seg.0 != seg.1 && learnable(seg.0, seg.1) && !seq_contains_seq(seg.2, "接尾"@)
}

/// The (reading, surface) conversions a commit teaches, in order.
pub open spec fn unigram_plan(segs: Seq<(Seq<char>, Seq<char>, Seq<char>)>) -> Seq<(Seq<char>, Seq<char>)>
    decreases segs.len(),
{
    if segs.len() == 0 {
        Seq::empty()
    } else if teaches_unigram(segs.last()) {
        unigram_plan(segs.drop_last()).push((segs.last().0, segs.last().1))
    } else {
        unigram_plan(segs.drop_last())
    }
}

/// Two neighbouring segments teach that their surfaces follow each other
/// when both surfaces are non-empty and both pairs are learnable.
pub open spec fn teaches_bigram(a: (Seq<char>, Seq<char>, Seq<char>), b: (Seq<char>, Seq<char>, Seq<char>)) -> bool {
    a.1.len() > 0 && b.1.len() > 0 && learnable(a.0, a.1) && learnable(b.0, b.1)
}

/// The (previous surface, surface) pairs a commit teaches, in order.
pub open spec fn bigram_plan(segs: Seq<(Seq<char>, Seq<char>, Seq<char>)>) -> Seq<(Seq<char>, Seq<char>)>
    decreases segs.len(),
{
    if segs.len() < 2 {
        Seq::empty()
    } else {
        let a = segs[segs.len() - 2];
        let b = segs[segs.len() - 1];
        if teaches_bigram(a, b) {
            bigram_plan(segs.drop_last()).push((a.1, b.1))
        } else {
            bigram_plan(segs.drop_last())
        }
    }
}

/// A segment counts as a content word for associations: a content part of
/// speech, converted, non-empty, and learnable.
pub open spec fn content_word(seg: (Seq<char>, Seq<char>, Seq<char>)) -> bool {
    content_pos(seg.2) && seg.1 != seg.0 && seg.1.len() > 0 && learnable(seg.0, seg.1)
}

/// The surfaces of the content words, in order.
pub open spec fn content_surfaces(segs: Seq<(Seq<char>, Seq<char>, Seq<char>)>) -> Seq<Seq<char>>
    decreases segs.len(),
{
    if segs.len() == 0 {
        Seq::empty()
    } else if content_word(segs.last()) {
        content_surfaces(segs.drop_last()).push(segs.last().1)
    } else {
        content_surfaces(segs.drop_last())
    }
}

/// Each content word paired with the one before it.
pub open spec fn neighbour_pairs(ws: Seq<Seq<char>>) -> Seq<(Seq<char>, Seq<char>)>
    decreases ws.len(),
{
    if ws.len() < 2 {
        Seq::empty()
    } else {
        neighbour_pairs(ws.drop_last()).push((ws[ws.len() - 2], ws[ws.len() - 1]))
    }
}

/// What a commit teaches the learning store.
pub struct LearningPlan {
    /// (reading, surface) conversions.
    pub unigrams: Vec<(String, String)>,
    /// (previous surface, surface) pairs.
    pub bigrams: Vec<(String, String)>,
    /// (previous content word, content word) associations.
    pub assocs: Vec<(String, String)>,
}

fn copy_str(s: &String) -> (r: String)
    ensures
        r@ == s@,
{
    let c = chars_of(s.as_str());
    string_from_chars(c.as_slice())
}

/// What committing these segments teaches: the conversions of
/// `unigram_plan`, the word pairs of `bigram_plan`, and the content-word
/// associations between consecutive content words.
pub fn learning_plan(segments: &Vec<(String, String, String)>) -> (r: LearningPlan)
    ensures
        pairs_of(r.unigrams@) == unigram_plan(segments_view(segments@)),
        pairs_of(r.bigrams@) == bigram_plan(segments_view(segments@)),
        pairs_of(r.assocs@) == neighbour_pairs(content_surfaces(segments_view(segments@))),
{
    let ghost sv = segments_view(segments@);
    let mut unigrams: Vec<(String, String)> = Vec::new();
    let mut bigrams: Vec<(String, String)> = Vec::new();
    let mut assocs: Vec<(String, String)> = Vec::new();
    let mut last_content: Option<String> = None;
    let mut i: usize = 0;
    assert(sv.take(0) =~= Seq::<(Seq<char>, Seq<char>, Seq<char>)>::empty());
    assert(pairs_of(unigrams@) =~= Seq::<(Seq<char>, Seq<char>)>::empty());
    assert(pairs_of(bigrams@) =~= Seq::<(Seq<char>, Seq<char>)>::empty());
    assert(pairs_of(assocs@) =~= Seq::<(Seq<char>, Seq<char>)>::empty());
    while i < segments.len()
        invariant
            i <= segments@.len(),
            sv == segments_view(segments@),
            pairs_of(unigrams@) == unigram_plan(sv.take(i as int)),
            pairs_of(bigrams@) == bigram_plan(sv.take(i as int)),
            pairs_of(assocs@) == neighbour_pairs(content_surfaces(sv.take(i as int))),
            match last_content {
                Some(l) => content_surfaces(sv.take(i as int)).len() > 0 && l@ == content_surfaces(
                    sv.take(i as int),
                ).last(),
                None => content_surfaces(sv.take(i as int)).len() == 0,
            },
        decreases segments@.len() - i,
    {
        let ghost t = sv.take(i + 1);
        assert(t.drop_last() =~= sv.take(i as int));
        assert(t.last() == sv[i as int]);
        let seg = &segments[i];
        assert(sv[i as int] == (seg.0@, seg.1@, seg.2@));
        let reading = seg.0.as_str();
        let surface = seg.1.as_str();
        let rc = chars_of(reading);
        let sc = chars_of(surface);
        let same = chars_eq(rc.as_slice(), sc.as_slice());
        let learnable_pair = is_learnable_pair(reading, surface);
        let pc = chars_of(seg.2.as_str());
        let suffix = contains_str(pc.as_slice(), "接尾");
        let ghost u0 = pairs_of(unigrams@);
        if !same && learnable_pair && !suffix {
            unigrams.push((copy_str(&seg.0), copy_str(&seg.1)));
            assert(pairs_of(unigrams@) =~= u0.push((seg.0@, seg.1@)));
        }
        let ghost b0 = pairs_of(bigrams@);
        if i > 0 {
            let prev = &segments[i - 1];
            assert(sv[i - 1] == (prev.0@, prev.1@, prev.2@));
            assert(t[t.len() - 2] == sv[i - 1]);
            let pr = chars_of(prev.1.as_str());
            if pr.len() > 0 && sc.len() > 0 && is_learnable_pair(prev.0.as_str(), prev.1.as_str()) && learnable_pair {
                bigrams.push((copy_str(&prev.1), copy_str(&seg.1)));
                assert(pairs_of(bigrams@) =~= b0.push((prev.1@, seg.1@)));
            }
        }
        let ghost a0 = pairs_of(assocs@);
        if is_content_pos(seg.2.as_str()) && !same && sc.len() > 0 && learnable_pair {
            let ghost cs0 = content_surfaces(sv.take(i as int));
            assert(content_surfaces(t) =~= cs0.push(seg.1@));
            match &last_content {
                Some(l) => {
                    assocs.push((copy_str(l), copy_str(&seg.1)));
                    assert(cs0.push(seg.1@).drop_last() =~= cs0);
                    assert(pairs_of(assocs@) =~= a0.push((l@, seg.1@)));
                },
                None => {
                    assert(cs0.push(seg.1@).len() < 2);
                },
            }
            last_content = Some(copy_str(&seg.1));
        }
        i += 1;
    }
    assert(sv.take(segments@.len() as int) =~= sv);
    LearningPlan { unigrams, bigrams, assocs }
}


/// The readings of `ws`, one after another.
pub open spec fn join_readings(ws: Seq<WordSpec>) -> Seq<char>
    decreases ws.len(),
{
    if ws.len() == 0 {
        Seq::empty()
    } else {
        join_readings(ws.drop_last()) + ws.last().reading
    }
}

/// The surfaces (or readings) of `entries[from .. to]`, one after another.
fn join_range(entries: &Vec<WordEntry>, from: usize, to: usize, readings: bool) -> (r: String)
    requires
        from <= to <= entries@.len(),
    ensures
        readings ==> r@ == join_readings(entries_view(entries@).subrange(from as int, to as int)),
        !readings ==> r@ == join_surfaces(entries_view(entries@).subrange(from as int, to as int)),
{
    let ghost v = entries_view(entries@);
    let mut out: Vec<char> = Vec::new();
    let mut k: usize = from;
    assert(v.subrange(from as int, from as int) =~= Seq::<WordSpec>::empty());
    while k < to
        invariant
            from <= k <= to <= entries@.len(),
            v == entries_view(entries@),
            readings ==> out@ == join_readings(v.subrange(from as int, k as int)),
            !readings ==> out@ == join_surfaces(v.subrange(from as int, k as int)),
        decreases to - k,
    {
        let cs = if readings {
            chars_of(entries[k].reading.as_str())
        } else {
            chars_of(entries[k].surface.as_str())
        };
        let ghost before = out@;
        let mut i: usize = 0;
        while i < cs.len()
            invariant
                i <= cs@.len(),
                out@ == before + cs@.take(i as int),
            decreases cs@.len() - i,
        {
            out.push(cs[i]);
            assert(cs@.take(i + 1) =~= cs@.take(i as int).push(cs@[i as int]));
            i += 1;
        }
        proof {
            assert(cs@.take(cs@.len() as int) =~= cs@);
            assert(v.subrange(from as int, k + 1).drop_last() =~= v.subrange(from as int, k as int));
            assert(v.subrange(from as int, k + 1).last() == entries@[k as int]@);
        }
        k += 1;
    }
    string_from_chars(out.as_slice())
}

/// Index of the last word before `n` that was converted (its surface is
/// not its reading); -1 when none is.
pub open spec fn last_converted_before(ws: Seq<WordSpec>, n: int) -> int
    decreases n,
{
    if n <= 0 {
        -1
    } else if ws[n - 1].surface != ws[n - 1].reading {
        n - 1
    } else {
        last_converted_before(ws, n - 1)
    }
}

/// The last word of the candidate target: the last converted word, or the
/// last word when none was converted.
pub open spec fn target_end(ws: Seq<WordSpec>) -> int {
    let k = last_converted_before(ws, ws.len() as int);
    if k >= 0 {
        k
    } else {
        ws.len() - 1
    }
}

/// The first word of the target: single-kanji words before `s` are taken
/// in while they run on from it.
pub open spec fn target_start_from(ws: Seq<WordSpec>, s: int) -> int
    decreases s,
{
    if s > 0 && single_kanji(ws[s].surface) && single_kanji(ws[s - 1].surface) {
        target_start_from(ws, s - 1)
    } else {
        s
    }
}

/// The segment a candidate list targets in a conversion, and what stands
/// before and after it.
pub struct TargetSegment {
    pub start: usize,
    pub end: usize,
    pub reading: String,
    pub prefix_surface: String,
    pub prefix_reading: String,
    pub suffix_surface: String,
    pub suffix_reading: String,
}

/// The candidate target of a conversion: the last converted word (or the
/// last word), widened left over a run of single-kanji words, with the
/// surfaces and readings before and after it.
pub fn target_segment(entries: &Vec<WordEntry>) -> (r: TargetSegment)
    requires
        entries@.len() > 0,
    ensures
        ({
            let ws = entries_view(entries@);
            &&& r.end as int == target_end(ws)
            &&& r.start as int == target_start_from(ws, target_end(ws))
            &&& r.reading@ == join_readings(ws.subrange(r.start as int, r.end + 1))
            &&& r.prefix_surface@ == join_surfaces(ws.take(r.start as int))
            &&& r.prefix_reading@ == join_readings(ws.take(r.start as int))
            &&& r.suffix_surface@ == join_surfaces(ws.skip(r.end + 1))
            &&& r.suffix_reading@ == join_readings(ws.skip(r.end + 1))
        }),
{
    let ghost ws = entries_view(entries@);
    let n = entries.len();
    let mut k: usize = n;
    while k > 0 && chars_eq(
        chars_of(entries[k - 1].surface.as_str()).as_slice(),
        chars_of(entries[k - 1].reading.as_str()).as_slice(),
    )
        invariant
            k <= n,
            n == entries@.len(),
            ws == entries_view(entries@),
            last_converted_before(ws, n as int) == last_converted_before(ws, k as int),
        decreases k,
    {
        assert(ws[k - 1] == entries@[k - 1]@);
        k -= 1;
    }
    proof {
        if k > 0 {
            assert(ws[k - 1] == entries@[k - 1]@);
        }
    }
    let end = if k > 0 {
        k - 1
    } else {
        n - 1
    };
    let mut start = end;
    while start > 0 && is_single_kanji_entry(&entries[start]) && is_single_kanji_entry(&entries[start - 1])
        invariant
            start <= end < n,
            n == entries@.len(),
            ws == entries_view(entries@),
            target_start_from(ws, end as int) == target_start_from(ws, start as int),
        decreases start,
    {
        assert(ws[start as int] == entries@[start as int]@);
        assert(ws[start - 1] == entries@[start - 1]@);
        start -= 1;
    }
    proof {
        if start > 0 {
            assert(ws[start as int] == entries@[start as int]@);
            assert(ws[start - 1] == entries@[start - 1]@);
        }
        assert(ws.subrange(0, start as int) =~= ws.take(start as int));
        assert(ws.subrange(end + 1, n as int) =~= ws.skip(end + 1));
    }
    TargetSegment {
        start,
        end,
        reading: join_range(entries, start, end + 1, true),
        prefix_surface: join_range(entries, 0, start, false),
        prefix_reading: join_range(entries, 0, start, true),
        suffix_surface: join_range(entries, end + 1, n, false),
        suffix_reading: join_range(entries, end + 1, n, true),
    }
}


/// Most candidates a list holds.
pub const MAX_CONVERSION_CANDIDATES: usize = 50;

/// `a` is listed before `b`: learned more often, or as often and cheaper.
pub open spec fn ranks_before(a: (Seq<char>, nat, int), b: (Seq<char>, nat, int)) -> bool {
    a.1 > b.1 || (a.1 == b.1 && a.2 < b.2)
}

/// `s` with `x` placed after every element that does not rank after it.
pub open spec fn insert_ranked(s: Seq<(Seq<char>, nat, int)>, x: (Seq<char>, nat, int)) -> Seq<(Seq<char>, nat, int)>
    decreases s.len(),
{
    if s.len() == 0 {
        seq![x]
    } else if !ranks_before(x, s.last()) {
        s.push(x)
    } else {
        insert_ranked(s.drop_last(), x).push(s.last())
    }
}

/// `s` ordered by learned frequency (highest first) and then effective
/// cost (lowest first), equal ones keeping their order (a stable sort).
pub open spec fn ranked(s: Seq<(Seq<char>, nat, int)>) -> Seq<(Seq<char>, nat, int)>
    decreases s.len(),
{
    if s.len() == 0 {
        s
    } else {
        insert_ranked(ranked(s.drop_last()), s.last())
    }
}

/// The surfaces offered for a segment reading, before ordering: each
/// dictionary word with its learned frequency and its cost plus the
/// single-kanji penalty, then the katakana spelling (when it differs) and
/// the reading itself, at fixed high costs.
pub open spec fn segment_options(words: Seq<WordSpec>, freqs: Seq<u32>, reading: Seq<char>) -> Seq<(Seq<char>, nat, int)> {
    let dict = Seq::new(
        words.len(),
        |i: int|
            (
                words[i].surface,
                freqs[i] as nat,
                words[i].cost + if single_kanji(words[i].surface) {
                    2000int
                } else {
                    0int
                },
            ),
    );
    let kata = to_katakana_seq(reading);
    let with_kata = if kata != reading {
        dict.push((kata, 0nat, 30000int))
    } else {
        dict
    };
    with_kata.push((reading, 0nat, 32000int))
}

/// The candidate list of ordered options: each surface between the fixed
/// prefix and suffix, without repeating a candidate, at most
/// `MAX_CONVERSION_CANDIDATES`; pairs of (candidate, surface).
pub open spec fn assemble(
    opts: Seq<(Seq<char>, nat, int)>,
    prefix: Seq<char>,
    suffix: Seq<char>,
) -> Seq<(Seq<char>, Seq<char>)>
    decreases opts.len(),
{
    if opts.len() == 0 {
        Seq::empty()
    } else {
        let prev = assemble(opts.drop_last(), prefix, suffix);
        let c = prefix + opts.last().0 + suffix;
        if prev.len() < MAX_CONVERSION_CANDIDATES && !(exists|j: int| 0 <= j < prev.len() && (#[trigger] prev[j]).0 == c) {
            prev.push((c, opts.last().0))
        } else {
            prev
        }
    }
}

proof fn lemma_insert_ranked_at(s: Seq<(Seq<char>, nat, int)>, x: (Seq<char>, nat, int), j: int)
    requires
        0 <= j <= s.len(),
        j > 0 ==> !ranks_before(x, s[j - 1]),
        forall|m: int| j <= m < s.len() ==> ranks_before(x, #[trigger] s[m]),
    ensures
        insert_ranked(s, x) == s.insert(j, x),
    decreases s.len(),
{
    if s.len() == 0 {
        assert(s.insert(j, x) =~= seq![x]);
    } else if j == s.len() {
        assert(s.insert(j, x) =~= s.push(x));
    } else {
        assert(ranks_before(x, s[s.len() - 1]));
        lemma_insert_ranked_at(s.drop_last(), x, j);
        assert(s.drop_last().insert(j, x).push(s.last()) =~= s.insert(j, x));
    }
}

/// The candidate list of a segment as plain values: pairs of (candidate,
/// surface of the segment).
pub open spec fn segment_list(
    words: Seq<WordSpec>,
    freqs: Seq<u32>,
    reading: Seq<char>,
    prefix: Seq<char>,
    suffix: Seq<char>,
) -> Seq<(Seq<char>, Seq<char>)> {
    assemble(ranked(segment_options(words, freqs, reading)), prefix, suffix)
}

/// Options as plain values.
pub open spec fn options_view(v: Seq<(String, u32, i32)>) -> Seq<(Seq<char>, nat, int)> {
    v.map_values(|o: (String, u32, i32)| (o.0@, o.1 as nat, o.2 as int))
}

/// The ranked candidate list of a segment: candidate texts and, beside
/// each, the surface it gives the segment.
pub struct SegmentCandidates {
    pub candidates: Vec<String>,
    pub seg_surfaces: Vec<String>,
}

/// The candidate texts and segment surfaces are those of `list`.
pub open spec fn lists_match(candidates: Seq<String>, surfaces: Seq<String>, list: Seq<(Seq<char>, Seq<char>)>) -> bool {
    &&& candidates.len() == list.len()
    &&& surfaces.len() == list.len()
    &&& forall|i: int| 0 <= i < list.len() ==> (#[trigger] candidates[i])@ == list[i].0 && surfaces[i]@ == list[i].1
}

proof fn lemma_lists_match_push(
    c: Seq<String>,
    s: Seq<String>,
    list: Seq<(Seq<char>, Seq<char>)>,
    nc: String,
    ns: String,
    x: (Seq<char>, Seq<char>),
)
    requires
        lists_match(c, s, list),
        nc@ == x.0,
        ns@ == x.1,
    ensures
        lists_match(c.push(nc), s.push(ns), list.push(x)),
{
    assert forall|i: int| 0 <= i < list.push(x).len() implies (#[trigger] c.push(nc)[i])@ == list.push(x)[i].0
        && s.push(ns)[i]@ == list.push(x)[i].1 by {
        if i < list.len() {
            assert(c.push(nc)[i] == c[i]);
            assert(s.push(ns)[i] == s[i]);
        }
    }
}

fn build_options(words: &Vec<WordEntry>, freqs: &Vec<u32>, reading: &str) -> (r: Vec<(String, u32, i32)>)
    requires
        freqs@.len() == words@.len(),
    ensures
        options_view(r@) == segment_options(entries_view(words@), freqs@, reading@),
{
    let ghost ws = entries_view(words@);
    let mut opts: Vec<(String, u32, i32)> = Vec::new();
    let mut i: usize = 0;
    while i < words.len()
        invariant
            i <= words@.len(),
            freqs@.len() == words@.len(),
            ws == entries_view(words@),
            opts@.len() == i,
            forall|q: int| 0 <= q < i ==> #[trigger] options_view(opts@)[q] == (
                ws[q].surface,
                freqs@[q] as nat,
                ws[q].cost + if single_kanji(ws[q].surface) {
                    2000int
                } else {
                    0int
                },
            ),
        decreases words@.len() - i,
    {
        let w = &words[i];
        assert(ws[i as int] == w@);
        let cost = w.cost as i32 + single_kanji_penalty(w.surface.as_str());
        let ghost before = opts@;
        opts.push((copy_str(&w.surface), freqs[i], cost));
        proof {
            assert forall|q: int| 0 <= q < i + 1 implies #[trigger] options_view(opts@)[q] == (
                ws[q].surface,
                freqs@[q] as nat,
                ws[q].cost + if single_kanji(ws[q].surface) {
                    2000int
                } else {
                    0int
                },
            ) by {
                if q < i {
                    assert(opts@[q] == before[q]);
                    assert(options_view(opts@)[q] == options_view(before)[q]);
                } else {
                    assert(opts@[q] == (opts@[q].0, freqs@[q], cost));
                    assert(opts@[q].0@ == ws[q].surface);
                }
            }
        }
        i += 1;
    }
    let kata = hiragana_to_katakana(reading);
    let kc = chars_of(kata.as_str());
    let rc = chars_of(reading);
    let ghost base = options_view(opts@);
    if !chars_eq(kc.as_slice(), rc.as_slice()) {
        opts.push((kata, 0, 30000));
    }
    opts.push((string_from_chars(rc.as_slice()), 0, 32000));
    proof {
        let want = segment_options(ws, freqs@, reading@);
        let dict = Seq::new(
            ws.len(),
            |q: int|
                (
                    ws[q].surface,
                    freqs@[q] as nat,
                    ws[q].cost + if single_kanji(ws[q].surface) {
                        2000int
                    } else {
                        0int
                    },
                ),
        );
        assert(base =~= dict);
        assert(options_view(opts@) =~= want);
    }
    opts
}

fn sort_ranked(opts: &Vec<(String, u32, i32)>) -> (r: Vec<(String, u32, i32)>)
    ensures
        options_view(r@) == ranked(options_view(opts@)),
{
    let ghost ov = options_view(opts@);
    let mut sorted: Vec<(String, u32, i32)> = Vec::new();
    let mut k: usize = 0;
    assert(ov.take(0) =~= Seq::<(Seq<char>, nat, int)>::empty());
    assert(options_view(sorted@) =~= Seq::<(Seq<char>, nat, int)>::empty());
    while k < opts.len()
        invariant
            k <= opts@.len(),
            ov == options_view(opts@),
            options_view(sorted@) == ranked(ov.take(k as int)),
        decreases opts@.len() - k,
    {
        let f = opts[k].1;
        let c = opts[k].2;
        let mut j = sorted.len();
        while j > 0 && (f > sorted[j - 1].1 || (f == sorted[j - 1].1 && c < sorted[j - 1].2))
            invariant
                j <= sorted@.len(),
                forall|m: int| j <= m < sorted@.len() ==> (f > (#[trigger] sorted@[m]).1 || (f == sorted@[m].1 && c
                    < sorted@[m].2)),
            decreases j,
        {
            j -= 1;
        }
        let ghost old_s = options_view(sorted@);
        let ghost x = (opts@[k as int].0@, f as nat, c as int);
        proof {
            assert forall|m: int| j <= m < old_s.len() implies ranks_before(x, #[trigger] old_s[m]) by {
                assert(f > sorted@[m].1 || (f == sorted@[m].1 && c < sorted@[m].2));
            }
            lemma_insert_ranked_at(old_s, x, j as int);
            assert(ov.take(k + 1).drop_last() =~= ov.take(k as int));
            assert(ov.take(k + 1).last() == x);
        }
        sorted.insert(j, (copy_str(&opts[k].0), f, c));
        assert(options_view(sorted@) =~= old_s.insert(j as int, x));
        k += 1;
    }
    assert(ov.take(opts@.len() as int) =~= ov);
    sorted
}

fn join3(a: &str, b: &str, c: &str) -> (r: Vec<char>)
    ensures
        r@ == a@ + b@ + c@,
{
    let mut out = chars_of(a);
    let bc = chars_of(b);
    let cc = chars_of(c);
    let ghost p0 = out@;
    let mut q: usize = 0;
    while q < bc.len()
        invariant
            q <= bc.len(),
            out@ == p0 + bc@.take(q as int),
        decreases bc.len() - q,
    {
        out.push(bc[q]);
        assert(bc@.take(q + 1) =~= bc@.take(q as int).push(bc@[q as int]));
        q += 1;
    }
    assert(bc@.take(bc.len() as int) =~= bc@);
    let ghost p1 = out@;
    let mut q: usize = 0;
    while q < cc.len()
        invariant
            q <= cc.len(),
            out@ == p1 + cc@.take(q as int),
        decreases cc.len() - q,
    {
        out.push(cc[q]);
        assert(cc@.take(q + 1) =~= cc@.take(q as int).push(cc@[q as int]));
        q += 1;
    }
    assert(cc@.take(cc.len() as int) =~= cc@);
    out
}

fn assemble_exec(sorted: &Vec<(String, u32, i32)>, prefix: &str, suffix: &str) -> (r: SegmentCandidates)
    ensures
        lists_match(r.candidates@, r.seg_surfaces@, assemble(options_view(sorted@), prefix@, suffix@)),
{
    let ghost rk = options_view(sorted@);
    let mut candidates: Vec<String> = Vec::new();
    let mut seg_surfaces: Vec<String> = Vec::new();
    let mut m: usize = 0;
    assert(rk.take(0) =~= Seq::<(Seq<char>, nat, int)>::empty());
    while m < sorted.len()
        invariant
            m <= sorted@.len(),
            rk == options_view(sorted@),
            lists_match(candidates@, seg_surfaces@, assemble(rk.take(m as int), prefix@, suffix@)),
        decreases sorted@.len() - m,
    {
        let ghost prev = assemble(rk.take(m as int), prefix@, suffix@);
        let ghost nx = assemble(rk.take(m + 1), prefix@, suffix@);
        assert(rk.take(m + 1).drop_last() =~= rk.take(m as int));
        assert(rk.take(m + 1).last() == rk[m as int]);
        assert(rk[m as int].0 == sorted@[m as int].0@);
        let cand = join3(prefix, sorted[m].0.as_str(), suffix);
        if candidates.len() < MAX_CONVERSION_CANDIDATES {
            let mut seen = false;
            let mut t: usize = 0;
            while t < candidates.len()
                invariant
                    t <= candidates@.len(),
                    seen == (exists|j: int| 0 <= j < t && (#[trigger] candidates@[j])@ == cand@),
                decreases candidates@.len() - t,
            {
                let tc = chars_of(candidates[t].as_str());
                if chars_eq(tc.as_slice(), cand.as_slice()) {
                    seen = true;
                }
                t += 1;
            }
            proof {
                assert((exists|j: int| 0 <= j < prev.len() && (#[trigger] prev[j]).0 == cand@) == seen) by {
                    if seen {
                        let j = choose|j: int| 0 <= j < candidates@.len() && (#[trigger] candidates@[j])@ == cand@;
                        assert(prev[j].0 == cand@);
                    }
                    if exists|j: int| 0 <= j < prev.len() && (#[trigger] prev[j]).0 == cand@ {
                        let j = choose|j: int| 0 <= j < prev.len() && (#[trigger] prev[j]).0 == cand@;
                        assert(candidates@[j]@ == cand@);
                    }
                }
            }
            if !seen {
                let ghost c0 = candidates@;
                let ghost s0 = seg_surfaces@;
                candidates.push(string_from_chars(cand.as_slice()));
                seg_surfaces.push(copy_str(&sorted[m].0));
                proof {
                    assert(nx == prev.push((cand@, rk[m as int].0)));
                    lemma_lists_match_push(c0, s0, prev, candidates@.last(), seg_surfaces@.last(), (cand@, rk[m as int].0));
                    assert(candidates@ =~= c0.push(candidates@.last()));
                    assert(seg_surfaces@ =~= s0.push(seg_surfaces@.last()));
                }
            } else {
                assert(nx == prev);
                assert(lists_match(candidates@, seg_surfaces@, prev));
            }
        } else {
            assert(nx == prev);
            assert(lists_match(candidates@, seg_surfaces@, prev));
        }
        assert(lists_match(candidates@, seg_surfaces@, nx));
        let ghost m0 = m as int;
        m += 1;
        assert(rk.take(m as int) == rk.take(m0 + 1));
    }
    assert(rk.take(sorted@.len() as int) =~= rk);
    SegmentCandidates { candidates, seg_surfaces }
}

/// The candidates for the target segment `reading` between `prefix` and
/// `suffix`: the dictionary `words` of the reading, with `freqs[i]` the
/// learned frequency of `words[i]`, plus its katakana and hiragana, ordered
/// by `ranked` and assembled by `assemble`.
pub fn rank_segment_candidates(
    words: &Vec<WordEntry>,
    freqs: &Vec<u32>,
    reading: &str,
    prefix: &str,
    suffix: &str,
) -> (r: SegmentCandidates)
    requires
        freqs@.len() == words@.len(),
    ensures
        lists_match(
            r.candidates@,
            r.seg_surfaces@,
            segment_list(entries_view(words@), freqs@, reading@, prefix@, suffix@),
        ),
{
    let opts = build_options(words, freqs, reading);
    let sorted = sort_ranked(&opts);
    assemble_exec(&sorted, prefix, suffix)
}


/// How many characters of reading Esc turns back into kana, from the
/// conversion of the part still converted (`keep` characters): from its
/// last converted word to its end, or all of it when no word is converted.
pub open spec fn revert_length(ws: Seq<WordSpec>, keep: nat) -> nat {
    let k = last_converted_before(ws, ws.len() as int);
    if k >= 0 {
        join_readings(ws.skip(k)).len()
    } else {
        keep
    }
}

proof fn lemma_join_readings_step(ws: Seq<WordSpec>, k: int)
    requires
        0 <= k < ws.len(),
    ensures
        join_readings(ws.skip(k)).len() == ws[k].reading.len() + join_readings(ws.skip(k + 1)).len(),
    decreases ws.len() - k,
{
    let t = ws.skip(k);
    if k + 1 == ws.len() {
        assert(t.drop_last() =~= Seq::<WordSpec>::empty());
        assert(ws.skip(k + 1) =~= Seq::<WordSpec>::empty());
    } else {
        lemma_join_readings_step(ws.drop_last(), k);
        assert(t.drop_last() =~= ws.drop_last().skip(k));
        assert(ws.skip(k + 1).drop_last() =~= ws.drop_last().skip(k + 1));
        assert(ws.skip(k + 1).last() == t.last());
    }
}

/// `revert_length`, capped at the largest `usize`.
pub fn revert_len(entries: &Vec<WordEntry>, keep: usize) -> (r: usize)
    ensures
        r as int == if revert_length(entries_view(entries@), keep as nat) <= usize::MAX {
            revert_length(entries_view(entries@), keep as nat) as int
        } else {
            usize::MAX as int
        },
{
    let ghost ws = entries_view(entries@);
    let n = entries.len();
    let mut k: usize = n;
    while k > 0 && chars_eq(
        chars_of(entries[k - 1].surface.as_str()).as_slice(),
        chars_of(entries[k - 1].reading.as_str()).as_slice(),
    )
        invariant
            k <= n,
            n == entries@.len(),
            ws == entries_view(entries@),
            last_converted_before(ws, n as int) == last_converted_before(ws, k as int),
        decreases k,
    {
        assert(ws[k - 1] == entries@[k - 1]@);
        k -= 1;
    }
    if k == 0 {
        return keep;
    }
    assert(ws[k - 1] == entries@[k - 1]@);
    let idx = k - 1;
    let mut sum: usize = 0;
    let mut j: usize = n;
    assert(ws.skip(n as int) =~= Seq::<WordSpec>::empty());
    while j > idx
        invariant
            idx <= j <= n,
            n == entries@.len(),
            ws == entries_view(entries@),
            sum as int == if join_readings(ws.skip(j as int)).len() <= usize::MAX {
                join_readings(ws.skip(j as int)).len() as int
            } else {
                usize::MAX as int
            },
        decreases j,
    {
        let l = chars_of(entries[j - 1].reading.as_str()).len();
        proof {
            assert(ws[j - 1] == entries@[j - 1]@);
            lemma_join_readings_step(ws, j - 1);
        }
        sum = sum.saturating_add(l);
        j -= 1;
    }
    sum
}

/// The new length of the kana tail after Esc reverts `revert` more
/// characters: at least one more, at most all `total`.
pub fn next_kana_tail(tail: usize, revert: usize, total: usize) -> (r: usize)
    requires
        tail < total,
    ensures
        r as int == if tail + (if revert >= 1 { revert as int } else { 1int }) <= total {
            tail + (if revert >= 1 { revert as int } else { 1int })
        } else {
            total as int
        },
{
    let step = if revert >= 1 {
        revert
    } else {
        1
    };
    if step >= total - tail {
        total
    } else {
        tail + step
    }
}

/// How many characters of the reading stay after Backspace: the last
/// converted word goes (one character when there is none or it is empty).
pub open spec fn backspace_keep_len(ws: Seq<WordSpec>, total: nat) -> nat {
    let last = if ws.len() > 0 && ws.last().reading.len() > 0 {
        ws.last().reading.len()
    } else {
        1
    };
    if last >= total {
        0
    } else {
        (total - last) as nat
    }
}

/// The length of reading Backspace keeps, as `backspace_keep_len` says.
pub fn backspace_keep(entries: &Vec<WordEntry>, total: usize) -> (r: usize)
    ensures
        r == backspace_keep_len(entries_view(entries@), total as nat),
{
    let mut last: usize = 1;
    if entries.len() > 0 {
        let l = chars_of(entries[entries.len() - 1].reading.as_str()).len();
        assert(entries_view(entries@).last() == entries@[entries.len() - 1]@);
        if l > 0 {
            last = l;
        }
    }
    if last >= total {
        0
    } else {
        total - last
    }
}

/// Splits a reading before its last `tail_len` characters (all of it when
/// shorter): the part still converted and the kana tail.
pub fn kana_tail_split(reading: &str, tail_len: usize) -> (r: (String, String))
    ensures
        ({
            let keep = if tail_len >= reading@.len() {
                0
            } else {
                reading@.len() - tail_len
            };
            r.0@ == reading@.take(keep) && r.1@ == reading@.skip(keep)
        }),
{
    let cs = chars_of(reading);
    let keep = if tail_len >= cs.len() {
        0
    } else {
        cs.len() - tail_len
    };
    let head = string_from_range(cs.as_slice(), 0, keep);
    let tail = string_from_range(cs.as_slice(), keep, cs.len());
    assert(cs@.subrange(0, keep as int) =~= cs@.take(keep as int));
    assert(cs@.subrange(keep as int, cs.len() as int) =~= cs@.skip(keep as int));
    (head, tail)
}


/// How many ASCII letters a text holds.
pub open spec fn count_latin(c: Seq<char>) -> nat
    decreases c.len(),
{
    if c.len() == 0 {
        0
    } else {
        count_latin(c.drop_last()) + if is_ascii_alpha(c.last()) {
            1nat
        } else {
            0nat
        }
    }
}

/// Positions of the ASCII letters, in order.
pub open spec fn latin_positions(c: Seq<char>) -> Seq<int>
    decreases c.len(),
{
    if c.len() == 0 {
        Seq::empty()
    } else if is_ascii_alpha(c.last()) {
        latin_positions(c.drop_last()).push(c.len() - 1)
    } else {
        latin_positions(c.drop_last())
    }
}

/// `c` with the vowels of `combo`, in turn, typed after its letters.
pub open spec fn vowels_after_latin(c: Seq<char>, combo: Seq<char>) -> Seq<char>
    decreases c.len(),
{
    if c.len() == 0 {
        Seq::empty()
    } else {
        let n = count_latin(c.drop_last());
        vowels_after_latin(c.drop_last(), combo) + if is_ascii_alpha(c.last()) && n < combo.len() {
            seq![c.last(), combo[n as int]]
        } else {
            seq![c.last()]
        }
    }
}

/// `c` with its letters, in turn, replaced by the vowels of `combo`.
pub open spec fn vowels_for_latin(c: Seq<char>, combo: Seq<char>) -> Seq<char>
    decreases c.len(),
{
    if c.len() == 0 {
        Seq::empty()
    } else {
        let n = count_latin(c.drop_last());
        vowels_for_latin(c.drop_last(), combo).push(
            if is_ascii_alpha(c.last()) && n < combo.len() {
                combo[n as int]
            } else {
                c.last()
            },
        )
    }
}

/// `c` with the characters at `i` and `i + 1` swapped.
pub open spec fn swapped(c: Seq<char>, i: int) -> Seq<char> {
    c.update(i, c[i + 1]).update(i + 1, c[i])
}

/// For each letter position: the swaps with the next and with the previous
/// character, where there is one.
pub open spec fn transpositions(c: Seq<char>, ps: Seq<int>) -> Seq<Seq<char>>
    decreases ps.len(),
{
    if ps.len() == 0 {
        Seq::empty()
    } else {
        let i = ps.last();
        let prev = transpositions(c, ps.drop_last());
        let with_next = if i + 1 < c.len() {
            prev.push(swapped(c, i))
        } else {
            prev
        };
        if i > 0 {
            with_next.push(swapped(c, i - 1))
        } else {
            with_next
        }
    }
}

/// For each letter `n`: the text with it written ん.
pub open spec fn n_fixes(c: Seq<char>, ps: Seq<int>) -> Seq<Seq<char>>
    decreases ps.len(),
{
    if ps.len() == 0 {
        Seq::empty()
    } else if c[ps.last()] == 'n' {
        n_fixes(c, ps.drop_last()).push(c.update(ps.last(), 'ん'))
    } else {
        n_fixes(c, ps.drop_last())
    }
}

/// The edits tried on a mix of kana and left-over romaji, in order: with
/// one to three letters, vowels typed after them and vowels in their place
/// (every vowel string); each letter dropped; each letter swapped with its
/// neighbours; each `n` written ん; all letters dropped.
pub open spec fn repair_edits(c: Seq<char>) -> Seq<Seq<char>> {
    let ps = latin_positions(c);
    let k = ps.len();
    let vs = if 1 <= k <= 3 {
        vowel_strings(k)
    } else {
        Seq::empty()
    };
    Seq::new(vs.len(), |j: int| vowels_after_latin(c, vs[j])) + Seq::new(
        vs.len(),
        |j: int| vowels_for_latin(c, vs[j]),
    ) + Seq::new(k, |j: int| c.remove(ps[j])) + transpositions(c, ps) + n_fixes(c, ps) + seq![without_latin(c)]
}

/// The settled readings of the edits, each once, in order.
pub open spec fn settle_all(romaji: RomajiConverter, es: Seq<Seq<char>>) -> Seq<Seq<char>>
    decreases es.len(),
{
    if es.len() == 0 {
        Seq::empty()
    } else {
        let prev = settle_all(romaji, es.drop_last());
        match settled_reading(romaji, es.last()) {
            Some(r) => if prev.contains(r) {
                prev
            } else {
                prev.push(r)
            },
            None => prev,
        }
    }
}

/// The readings a mistyped mix of kana and romaji may have meant: the
/// settled readings of `repair_edits`, each once, at most 80.
pub open spec fn repair_readings(romaji: RomajiConverter, c: Seq<char>) -> Seq<Seq<char>> {
    let all = settle_all(romaji, repair_edits(c));
    if all.len() > 80 {
        all.take(80)
    } else {
        all
    }
}

proof fn lemma_vowel_strings_len(k: nat)
    ensures
        forall|i: int| 0 <= i < vowel_strings(k).len() ==> (#[trigger] vowel_strings(k)[i]).len() == k,
    decreases k,
{
    if k > 0 {
        lemma_vowel_strings_len((k - 1) as nat);
        let prev = vowel_strings((k - 1) as nat);
        assert forall|i: int| 0 <= i < vowel_strings(k).len() implies (#[trigger] vowel_strings(k)[i]).len() == k by {
            assert(0 <= i / 5 < prev.len()) by (nonlinear_arith)
                requires
                    0 <= i < 5 * prev.len(),
            ;
        }
    }
}

proof fn lemma_latin_count(c: Seq<char>)
    ensures
        latin_positions(c).len() == count_latin(c),
        forall|j: int| 0 <= j < latin_positions(c).len() ==> 0 <= #[trigger] latin_positions(c)[j] < c.len()
            && is_ascii_alpha(c[latin_positions(c)[j]]),
    decreases c.len(),
{
    if c.len() > 0 {
        lemma_latin_count(c.drop_last());
    }
}

fn vowels_after_exec(c: &Vec<char>, combo: &Vec<char>) -> (r: Vec<char>)
    ensures
        r@ == vowels_after_latin(c@, combo@),
{
    let mut out: Vec<char> = Vec::new();
    let mut n: usize = 0;
    let mut i: usize = 0;
    assert(c@.take(0) =~= Seq::<char>::empty());
    while i < c.len()
        invariant
            i <= c.len(),
            n == count_latin(c@.take(i as int)),
            n <= i,
            out@ == vowels_after_latin(c@.take(i as int), combo@),
        decreases c.len() - i,
    {
        let ghost t = c@.take(i + 1);
        assert(t.drop_last() =~= c@.take(i as int));
        assert(t.last() == c@[i as int]);
        out.push(c[i]);
        if is_ascii_alphabetic(c[i]) {
            if n < combo.len() {
                out.push(combo[n]);
            }
            n += 1;
        }
        assert(out@ =~= vowels_after_latin(t, combo@));
        i += 1;
    }
    assert(c@.take(c.len() as int) =~= c@);
    out
}

fn vowels_for_exec(c: &Vec<char>, combo: &Vec<char>) -> (r: Vec<char>)
    ensures
        r@ == vowels_for_latin(c@, combo@),
{
    let mut out: Vec<char> = Vec::new();
    let mut n: usize = 0;
    let mut i: usize = 0;
    assert(c@.take(0) =~= Seq::<char>::empty());
    while i < c.len()
        invariant
            i <= c.len(),
            n == count_latin(c@.take(i as int)),
            n <= i,
            out@ == vowels_for_latin(c@.take(i as int), combo@),
        decreases c.len() - i,
    {
        let ghost t = c@.take(i + 1);
        assert(t.drop_last() =~= c@.take(i as int));
        assert(t.last() == c@[i as int]);
        if is_ascii_alphabetic(c[i]) {
            if n < combo.len() {
                out.push(combo[n]);
            } else {
                out.push(c[i]);
            }
            n += 1;
        } else {
            out.push(c[i]);
        }
        assert(out@ =~= vowels_for_latin(t, combo@));
        i += 1;
    }
    assert(c@.take(c.len() as int) =~= c@);
    out
}

/// Character vectors as sequences.
pub open spec fn vecs_view(v: Seq<Vec<char>>) -> Seq<Seq<char>> {
    v.map_values(|x: Vec<char>| x@)
}

/// Strings as sequences.
pub open spec fn strings_view(v: Seq<String>) -> Seq<Seq<char>> {
    v.map_values(|x: String| x@)
}

/// The edits of `repair_edits`.
fn repair_edit_list(c: &Vec<char>) -> (r: Vec<Vec<char>>)
    ensures
        vecs_view(r@) == repair_edits(c@),
{
    let ghost cv = c@;
    let mut ps: Vec<usize> = Vec::new();
    let mut i: usize = 0;
    assert(cv.take(0) =~= Seq::<char>::empty());
    while i < c.len()
        invariant
            i <= c.len(),
            cv == c@,
            ps@.map_values(|p: usize| p as int) == latin_positions(cv.take(i as int)),
        decreases c.len() - i,
    {
        assert(cv.take(i + 1).drop_last() =~= cv.take(i as int));
        assert(cv.take(i + 1).last() == cv[i as int]);
        let ghost before = ps@;
        if is_ascii_alphabetic(c[i]) {
            ps.push(i);
            assert(ps@.map_values(|p: usize| p as int) =~= before.map_values(|p: usize| p as int).push(i as int));
        }
        i += 1;
    }
    assert(cv.take(c.len() as int) =~= cv);
    let ghost pv = latin_positions(cv);
    proof {
        lemma_latin_count(cv);
    }
    let k = ps.len();
    let mut out: Vec<Vec<char>> = Vec::new();
    let ghost vs = if 1 <= k <= 3 {
        vowel_strings(k as nat)
    } else {
        Seq::<Seq<char>>::empty()
    };
    let ghost part_a = Seq::new(vs.len(), |j: int| vowels_after_latin(cv, vs[j]));
    let ghost part_b = Seq::new(vs.len(), |j: int| vowels_for_latin(cv, vs[j]));
    if 1 <= k && k <= 3 {
        let combos = vowel_combos(k);
        let mut j: usize = 0;
        while j < combos.len()
            invariant
                j <= combos@.len(),
                combos@.len() == vs.len(),
                forall|q: int| 0 <= q < combos@.len() ==> (#[trigger] combos@[q])@ == vs[q],
                cv == c@,
                part_a == Seq::new(vs.len(), |q: int| vowels_after_latin(cv, vs[q])),
                vecs_view(out@) == part_a.take(j as int),
            decreases combos@.len() - j,
        {
            let e = vowels_after_exec(c, &combos[j]);
            let ghost before = vecs_view(out@);
            let ghost ev = e@;
            out.push(e);
            assert(vecs_view(out@) =~= before.push(ev));
            assert(part_a.take(j + 1) =~= part_a.take(j as int).push(part_a[j as int]));
            assert(vecs_view(out@) =~= part_a.take(j + 1));
            j += 1;
        }
        let mut j: usize = 0;
        assert(vecs_view(out@) =~= part_a + part_b.take(0));
        while j < combos.len()
            invariant
                j <= combos@.len(),
                combos@.len() == vs.len(),
                forall|q: int| 0 <= q < combos@.len() ==> (#[trigger] combos@[q])@ == vs[q],
                cv == c@,
                part_a.len() == vs.len(),
                part_b == Seq::new(vs.len(), |q: int| vowels_for_latin(cv, vs[q])),
                vecs_view(out@) == part_a + part_b.take(j as int),
            decreases combos@.len() - j,
        {
            let e = vowels_for_exec(c, &combos[j]);
            let ghost before = vecs_view(out@);
            let ghost ev = e@;
            out.push(e);
            assert(vecs_view(out@) =~= before.push(ev));
            assert(part_b.take(j + 1) =~= part_b.take(j as int).push(part_b[j as int]));
            assert(vecs_view(out@) =~= part_a + part_b.take(j + 1));
            j += 1;
        }
        assert(part_b.take(combos@.len() as int) =~= part_b);
    } else {
        assert(vecs_view(out@) =~= part_a + part_b);
    }
    let ghost ab = part_a + part_b;
    let ghost part_c = Seq::new(k as nat, |j: int| cv.remove(pv[j]));
    let mut j: usize = 0;
    assert(vecs_view(out@) =~= ab + part_c.take(0));
    while j < k
        invariant
            j <= k,
            k == ps@.len(),
            cv == c@,
            ps@.map_values(|p: usize| p as int) == pv,
            pv.len() == k,
            forall|q: int| 0 <= q < pv.len() ==> 0 <= #[trigger] pv[q] < cv.len(),
            part_c == Seq::new(k as nat, |q: int| cv.remove(pv[q])),
            vecs_view(out@) == ab + part_c.take(j as int),
        decreases k - j,
    {
        let p = ps[j];
        assert(pv[j as int] == p as int);
        assert(p < c.len());
        let mut e = vec_copy(c);
        e.remove(p);
        let ghost before = vecs_view(out@);
        let ghost ev = e@;
        out.push(e);
        assert(vecs_view(out@) =~= before.push(ev));
        assert(part_c.take(j + 1) =~= part_c.take(j as int).push(part_c[j as int]));
        assert(vecs_view(out@) =~= ab + part_c.take(j + 1));
        j += 1;
    }
    assert(part_c.take(k as int) =~= part_c);
    let ghost abc = ab + part_c;
    let mut j: usize = 0;
    assert(pv.take(0) =~= Seq::<int>::empty());
    assert(vecs_view(out@) =~= abc + transpositions(cv, pv.take(0)));
    while j < k
        invariant
            j <= k,
            k == ps@.len(),
            cv == c@,
            ps@.map_values(|p: usize| p as int) == pv,
            pv.len() == k,
            forall|q: int| 0 <= q < pv.len() ==> 0 <= #[trigger] pv[q] < cv.len(),
            vecs_view(out@) == abc + transpositions(cv, pv.take(j as int)),
        decreases k - j,
    {
        let p = ps[j];
        assert(pv[j as int] == p as int);
        assert(p < c.len());
        assert(pv.take(j + 1).drop_last() =~= pv.take(j as int));
        assert(pv.take(j + 1).last() == p as int);
        let ghost t0 = transpositions(cv, pv.take(j as int));
        if p + 1 < c.len() {
            let mut e = vec_copy(c);
            let a = e[p];
            let b = e[p + 1];
            e.set(p, b);
            e.set(p + 1, a);
            assert(e@ =~= swapped(cv, p as int));
            let ghost before = vecs_view(out@);
            let ghost ev = e@;
            out.push(e);
            assert(vecs_view(out@) =~= before.push(ev));
        }
        let ghost t1 = if p + 1 < c.len() {
            t0.push(swapped(cv, p as int))
        } else {
            t0
        };
        assert(vecs_view(out@) =~= abc + t1);
        if p > 0 {
            let mut e = vec_copy(c);
            let a = e[p - 1];
            let b = e[p];
            e.set(p - 1, b);
            e.set(p, a);
            assert(e@ =~= swapped(cv, p - 1));
            let ghost before = vecs_view(out@);
            let ghost ev = e@;
            out.push(e);
            assert(vecs_view(out@) =~= before.push(ev));
        }
        assert(vecs_view(out@) =~= abc + transpositions(cv, pv.take(j + 1)));
        j += 1;
    }
    assert(pv.take(k as int) =~= pv);
    let ghost abcd = abc + transpositions(cv, pv);
    let mut j: usize = 0;
    assert(vecs_view(out@) =~= abcd + n_fixes(cv, pv.take(0)));
    while j < k
        invariant
            j <= k,
            k == ps@.len(),
            cv == c@,
            ps@.map_values(|p: usize| p as int) == pv,
            pv.len() == k,
            forall|q: int| 0 <= q < pv.len() ==> 0 <= #[trigger] pv[q] < cv.len(),
            vecs_view(out@) == abcd + n_fixes(cv, pv.take(j as int)),
        decreases k - j,
    {
        let p = ps[j];
        assert(pv[j as int] == p as int);
        assert(pv.take(j + 1).drop_last() =~= pv.take(j as int));
        assert(pv.take(j + 1).last() == p as int);
        if c[p] == 'n' {
            let mut e = vec_copy(c);
            e.set(p, 'ん');
            let ghost before = vecs_view(out@);
            let ghost ev = e@;
            out.push(e);
            assert(vecs_view(out@) =~= before.push(ev));
        }
        assert(vecs_view(out@) =~= abcd + n_fixes(cv, pv.take(j + 1)));
        j += 1;
    }
    assert(pv.take(k as int) =~= pv);
    let mut no_latin: Vec<char> = Vec::new();
    let mut i: usize = 0;
    while i < c.len()
        invariant
            i <= c.len(),
            cv == c@,
            no_latin@ == without_latin(cv.take(i as int)),
        decreases c.len() - i,
    {
        assert(cv.take(i + 1).drop_last() =~= cv.take(i as int));
        if !is_ascii_alphabetic(c[i]) {
            no_latin.push(c[i]);
        }
        i += 1;
    }
    assert(cv.take(c.len() as int) =~= cv);
    let ghost before = vecs_view(out@);
    let ghost nl = no_latin@;
    out.push(no_latin);
    assert(vecs_view(out@) =~= before.push(nl));
    assert(vecs_view(out@) =~= repair_edits(cv));
    out
}

fn vec_copy(c: &Vec<char>) -> (r: Vec<char>)
    ensures
        r@ == c@,
{
    let r = crate::text::vec_from_range(c.as_slice(), 0, c.len());
    assert(c@.subrange(0, c.len() as int) =~= c@);
    r
}

/// The readings a mistyped mix of kana and romaji may have meant, as
/// `repair_readings` says.
pub fn romaji_repair_readings(romaji: &RomajiConverter, full: &str) -> (r: Vec<String>)
    ensures
        strings_view(r@) == repair_readings(*romaji, full@),
{
    let c = chars_of(full);
    let edits = repair_edit_list(&c);
    let ghost ev = vecs_view(edits@);
    let mut out: Vec<String> = Vec::new();
    let mut i: usize = 0;
    assert(ev.take(0) =~= Seq::<Seq<char>>::empty());
    assert(strings_view(out@) =~= Seq::<Seq<char>>::empty());
    while i < edits.len()
        invariant
            i <= edits@.len(),
            ev == vecs_view(edits@),
            strings_view(out@) == settle_all(*romaji, ev.take(i as int)),
        decreases edits@.len() - i,
    {
        let ghost prev = strings_view(out@);
        assert(ev.take(i + 1).drop_last() =~= ev.take(i as int));
        assert(ev.take(i + 1).last() == edits@[i as int]@);
        match romaji_settle(romaji, edits[i].as_slice()) {
            Some(r) => {
                let rc = chars_of(r.as_str());
                let mut seen = false;
                let mut t: usize = 0;
                while t < out.len()
                    invariant
                        t <= out@.len(),
                        seen == (exists|q: int| 0 <= q < t && (#[trigger] out@[q])@ == rc@),
                    decreases out@.len() - t,
                {
                    let tc = chars_of(out[t].as_str());
                    if chars_eq(tc.as_slice(), rc.as_slice()) {
                        seen = true;
                    }
                    t += 1;
                }
                proof {
                    if seen {
                        let q = choose|q: int| 0 <= q < out@.len() && (#[trigger] out@[q])@ == rc@;
                        assert(prev[q] == rc@);
                    }
                    if prev.contains(rc@) {
                        let q = choose|q: int| 0 <= q < prev.len() && prev[q] == rc@;
                        assert(out@[q]@ == rc@);
                    }
                }
                if !seen {
                    let ghost rv = r@;
                    out.push(r);
                    assert(rv == rc@);
                    assert(strings_view(out@) =~= prev.push(rc@));
                }
            },
            None => {},
        }
        i += 1;
    }
    assert(ev.take(edits@.len() as int) =~= ev);
    proof {
        assert(ev == repair_edits(full@));
    }
    if out.len() > 80 {
        out.truncate(80);
        assert(strings_view(out@) =~= settle_all(*romaji, ev).take(80));
    }
    out
}


/// The cheapest cleanly converting reading of `rs` (of two characters or
/// more; the first among equals), with its conversion and cost.
pub open spec fn best_repair(conv: ViterbiConverter, rs: Seq<Seq<char>>) -> Option<(Seq<char>, Seq<char>, i32)>
    decreases rs.len(),
{
    if rs.len() == 0 {
        None
    } else {
        let prev = best_repair(conv, rs.drop_last());
        let r = rs.last();
        match conv.clean_conversion(r) {
            Some(cc) => if r.len() >= 2 && (prev is None || cc.1 < prev.unwrap().2) {
                Some((r, cc.0, cc.1))
            } else {
                prev
            },
            None => prev,
        }
    }
}

/// "Did you mean" for romaji left in the input (inside the kana, or a stuck
/// tail): the cheapest repair that converts cleanly, unless the input is
/// over 20 characters or the repair costs 1301 or more per character.
pub open spec fn repair_suggestion(
    conv: ViterbiConverter,
    romaji: RomajiConverter,
    hiragana: Seq<char>,
    pending: Seq<char>,
) -> Option<(Seq<char>, Seq<char>)> {
    let embedded = exists|i: int| 0 <= i < hiragana.len() && is_ascii_alpha(#[trigger] hiragana[i]);
    let stuck = stuck_romaji(romaji, pending);
    let full = hiragana + pending;
    if !embedded && !stuck {
        None
    } else if full.len() > 20 {
        None
    } else {
        match best_repair(conv, repair_readings(romaji, full)) {
            Some(b) => if b.2 >= 1301 * b.0.len() {
                None
            } else {
                Some((b.0, b.1))
            },
            None => None,
        }
    }
}

/// The repair of left-over romaji, as `repair_suggestion` says: the
/// reading and its conversion.
pub fn romaji_repair_suggest(
    conv: &ViterbiConverter,
    romaji: &RomajiConverter,
    hiragana: &str,
    pending: &str,
) -> (r: Option<(String, String)>)
    requires
        conv.wf(),
    ensures
        match r {
            Some((a, b)) => repair_suggestion(*conv, *romaji, hiragana@, pending@) == Some((a@, b@)),
            None => repair_suggestion(*conv, *romaji, hiragana@, pending@) is None,
        },
{
    let hc = chars_of(hiragana);
    let mut embedded = false;
    let mut i: usize = 0;
    while i < hc.len()
        invariant
            i <= hc.len(),
            hc@ == hiragana@,
            embedded == (exists|q: int| 0 <= q < i && is_ascii_alpha(#[trigger] hc@[q])),
        decreases hc.len() - i,
    {
        if is_ascii_alphabetic(hc[i]) {
            embedded = true;
        }
        i += 1;
    }
    let stuck = is_stuck_romaji(romaji, pending);
    if !embedded && !stuck {
        return None;
    }
    let full = keep_all(hiragana, pending);
    let fc = chars_of(full.as_str());
    if fc.len() > 20 {
        return None;
    }
    let readings = romaji_repair_readings(romaji, full.as_str());
    let ghost rv = strings_view(readings@);
    let mut best: Option<(String, String, i32)> = None;
    let mut k: usize = 0;
    assert(rv.take(0) =~= Seq::<Seq<char>>::empty());
    while k < readings.len()
        invariant
            k <= readings@.len(),
            conv.wf(),
            rv == strings_view(readings@),
            match best {
                Some(b) => best_repair(*conv, rv.take(k as int)) == Some((b.0@, b.1@, b.2)),
                None => best_repair(*conv, rv.take(k as int)) is None,
            },
        decreases readings@.len() - k,
    {
        assert(rv.take(k + 1).drop_last() =~= rv.take(k as int));
        assert(rv.take(k + 1).last() == readings@[k as int]@);
        let rc = chars_of(readings[k].as_str());
        match conv.clean_reading(readings[k].as_str()) {
            Some((surface, cost)) => {
                let better = match &best {
                    Some(b) => cost < b.2,
                    None => true,
                };
                if rc.len() >= 2 && better {
                    best = Some((copy_str(&readings[k]), surface, cost));
                }
            },
            None => {},
        }
        k += 1;
    }
    assert(rv.take(readings@.len() as int) =~= rv);
    match best {
        Some(b) => {
            let n = chars_of(b.0.as_str()).len();
            if (b.2 as i128) >= 1301 * (n as i128) {
                None
            } else {
                Some((b.0, b.1))
            }
        },
        None => None,
    }
}

fn keep_all(a: &str, b: &str) -> (r: String)
    ensures
        r@ == a@ + b@,
{
    let v = join3(a, b, "");
    proof {
        reveal_strlit("");
    }
    assert(a@ + b@ + ""@ =~= a@ + b@);
    string_from_chars(v.as_slice())
}


/// Words as (reading, surface, part of speech).
pub open spec fn word_triples(ws: Seq<WordSpec>) -> Seq<(Seq<char>, Seq<char>, Seq<char>)> {
    ws.map_values(|w: WordSpec| (w.reading, w.surface, w.pos))
}

/// The segments a commit learns from, for the reading still being
/// composed. With a candidate selected: the conversion of the part before
/// it, the selected segment (taken as a common noun), the conversion of the
/// part after it. Otherwise, with a kana tail: the conversion of the part
/// before the tail, then the tail as it is. Otherwise the conversion of the
/// whole reading.
pub open spec fn segments_of(
    conv: ViterbiConverter,
    hiragana: Seq<char>,
    seg_surfaces: Seq<Seq<char>>,
    index: nat,
    seg_reading: Seq<char>,
    prefix_reading: Seq<char>,
    suffix_reading: Seq<char>,
    tail_len: nat,
) -> Seq<(Seq<char>, Seq<char>, Seq<char>)> {
    if hiragana.len() == 0 {
        Seq::empty()
    } else if seg_surfaces.len() > 0 && index < seg_surfaces.len() && seg_reading.len() > 0 {
        word_triples(conv.conversion(prefix_reading)) + seq![(seg_reading, seg_surfaces[index as int], "名詞-一般"@)]
            + word_triples(conv.conversion(suffix_reading))
    } else if tail_len > 0 {
        let keep = if tail_len >= hiragana.len() {
            0
        } else {
            hiragana.len() - tail_len
        };
        let tail = hiragana.skip(keep);
        word_triples(conv.conversion(hiragana.take(keep))) + if tail.len() > 0 {
            seq![(tail, tail, "名詞-一般"@)]
        } else {
            Seq::empty()
        }
    } else {
        word_triples(conv.conversion(hiragana))
    }
}

fn push_words(out: &mut Vec<(String, String, String)>, words: &Vec<WordEntry>)
    ensures
        segments_view(final(out)@) == segments_view(old(out)@) + word_triples(entries_view(words@)),
{
    let ghost base = segments_view(out@);
    let ghost wt = word_triples(entries_view(words@));
    let mut k: usize = 0;
    assert(wt.take(0) =~= Seq::<(Seq<char>, Seq<char>, Seq<char>)>::empty());
    assert(segments_view(out@) =~= base + wt.take(0));
    while k < words.len()
        invariant
            k <= words@.len(),
            wt == word_triples(entries_view(words@)),
            segments_view(out@) == base + wt.take(k as int),
        decreases words@.len() - k,
    {
        let w = &words[k];
        let ghost before = segments_view(out@);
        out.push((copy_str(&w.reading), copy_str(&w.surface), copy_str(&w.pos)));
        proof {
            assert(wt[k as int] == (w.reading@, w.surface@, w.pos@));
            assert(segments_view(out@) =~= before.push(wt[k as int]));
            assert(wt.take(k + 1) =~= wt.take(k as int).push(wt[k as int]));
        }
        k += 1;
    }
    assert(wt.take(words@.len() as int) =~= wt);
}

/// The segments a commit learns from, as `segments_of` says.
pub fn segments_to_learn(
    conv: &ViterbiConverter,
    hiragana: &str,
    seg_surfaces: &Vec<String>,
    index: usize,
    seg_reading: &str,
    prefix_reading: &str,
    suffix_reading: &str,
    tail_len: usize,
) -> (r: Vec<(String, String, String)>)
    requires
        conv.wf(),
    ensures
        segments_view(r@) == segments_of(
            *conv,
            hiragana@,
            strings_view(seg_surfaces@),
            index as nat,
            seg_reading@,
            prefix_reading@,
            suffix_reading@,
            tail_len as nat,
        ),
{
    let mut out: Vec<(String, String, String)> = Vec::new();
    assert(segments_view(out@) =~= Seq::<(Seq<char>, Seq<char>, Seq<char>)>::empty());
    let hc = chars_of(hiragana);
    if hc.len() == 0 {
        return out;
    }
    let sr = chars_of(seg_reading);
    if seg_surfaces.len() > 0 && index < seg_surfaces.len() && sr.len() > 0 {
        let before = conv.convert(prefix_reading);
        push_words(&mut out, &before);
        let ghost o1 = segments_view(out@);
        let noun = "名詞-一般";
        let seg = (copy_str_ref(seg_reading), copy_str(&seg_surfaces[index]), copy_str_ref(noun));
        out.push(seg);
        assert(segments_view(out@) =~= o1.push((seg_reading@, seg_surfaces@[index as int]@, "名詞-一般"@)));
        let after = conv.convert(suffix_reading);
        push_words(&mut out, &after);
        proof {
            assert(strings_view(seg_surfaces@)[index as int] == seg_surfaces@[index as int]@);
            assert(o1.push((seg_reading@, seg_surfaces@[index as int]@, "名詞-一般"@)) =~= o1 + seq![
                (seg_reading@, seg_surfaces@[index as int]@, "名詞-一般"@),
            ]);
        }
        return out;
    }
    if tail_len > 0 {
        let (head, tail) = kana_tail_split(hiragana, tail_len);
        let words = conv.convert(head.as_str());
        push_words(&mut out, &words);
        let tc = chars_of(tail.as_str());
        if tc.len() > 0 {
            let ghost o1 = segments_view(out@);
            let noun = "名詞-一般";
            out.push((copy_str(&tail), copy_str(&tail), copy_str_ref(noun)));
            assert(segments_view(out@) =~= o1 + seq![(tail@, tail@, "名詞-一般"@)]);
        } else {
            assert(segments_view(out@) =~= segments_view(out@) + Seq::<(Seq<char>, Seq<char>, Seq<char>)>::empty());
        }
        return out;
    }
    let words = conv.convert(hiragana);
    push_words(&mut out, &words);
    out
}

fn copy_str_ref(s: &str) -> (r: String)
    ensures
        r@ == s@,
{
    let c = chars_of(s);
    string_from_chars(c.as_slice())
}


/// The candidate after (or before) `index` in a list of `len`, wrapping
/// around.
pub fn cycle_index(index: usize, len: usize, backwards: bool) -> (r: usize)
    requires
        index < len,
    ensures
        r < len,
        r as int == if backwards {
            (index + len - 1) % (len as int)
        } else {
            (index + 1) % (len as int)
        },
{
    if backwards {
        if index == 0 {
            assert((len - 1) as int % (len as int) == len - 1) by (nonlinear_arith)
                requires
                    len > 0,
            ;
            len - 1
        } else {
            assert((index + len - 1) % (len as int) == index - 1) by (nonlinear_arith)
                requires
                    0 < index < len,
            ;
            index - 1
        }
    } else if index + 1 == len {
        assert((index + 1) % (len as int) == 0) by (nonlinear_arith)
            requires
                index + 1 == len,
                len > 0,
        ;
        0
    } else {
        assert((index + 1) % (len as int) == index + 1) by (nonlinear_arith)
            requires
                index + 1 < len,
        ;
        index + 1
    }
}

/// The predictions after adding history matches: each found (reading,
/// surface, frequency) is added, in order, when used at least once, longer
/// than what was typed, and not a surface already listed.
pub open spec fn with_history(
    preds: Seq<(Seq<char>, Seq<char>)>,
    found: Seq<(Seq<char>, Seq<char>, u32)>,
    typed: nat,
) -> Seq<(Seq<char>, Seq<char>)>
    decreases found.len(),
{
    if found.len() == 0 {
        preds
    } else {
        let prev = with_history(preds, found.drop_last(), typed);
        let f = found.last();
        if f.2 >= 1 && f.0.len() > typed && !(exists|j: int| 0 <= j < prev.len() && (#[trigger] prev[j]).1 == f.1) {
            prev.push((f.0, f.1))
        } else {
            prev
        }
    }
}

/// History matches as plain values.
pub open spec fn found_view(v: Seq<(String, String, u32)>) -> Seq<(Seq<char>, Seq<char>, u32)> {
    v.map_values(|t: (String, String, u32)| (t.0@, t.1@, t.2))
}

/// Adds the history matches to the predictions, as `with_history` says.
pub fn add_history_predictions(preds: &mut Vec<(String, String)>, found: &Vec<(String, String, u32)>, typed: usize)
    ensures
        pairs_of(final(preds)@) == with_history(pairs_of(old(preds)@), found_view(found@), typed as nat),
{
    let ghost base = pairs_of(preds@);
    let ghost fv = found_view(found@);
    let mut k: usize = 0;
    assert(fv.take(0) =~= Seq::<(Seq<char>, Seq<char>, u32)>::empty());
    while k < found.len()
        invariant
            k <= found@.len(),
            fv == found_view(found@),
            pairs_of(preds@) == with_history(base, fv.take(k as int), typed as nat),
        decreases found@.len() - k,
    {
        let ghost prev = pairs_of(preds@);
        assert(fv.take(k + 1).drop_last() =~= fv.take(k as int));
        let f = &found[k];
        assert(fv.take(k + 1).last() == (f.0@, f.1@, f.2));
        let sc = chars_of(f.1.as_str());
        let mut dup = false;
        let mut t: usize = 0;
        while t < preds.len()
            invariant
                t <= preds@.len(),
                dup == (exists|j: int| 0 <= j < t && (#[trigger] preds@[j]).1@ == sc@),
            decreases preds@.len() - t,
        {
            let pc = chars_of(preds[t].1.as_str());
            if chars_eq(pc.as_slice(), sc.as_slice()) {
                dup = true;
            }
            t += 1;
        }
        proof {
            if dup {
                let j = choose|j: int| 0 <= j < preds@.len() && (#[trigger] preds@[j]).1@ == sc@;
                assert(prev[j].1 == sc@);
            }
            if exists|j: int| 0 <= j < prev.len() && (#[trigger] prev[j]).1 == f.1@ {
                let j = choose|j: int| 0 <= j < prev.len() && (#[trigger] prev[j]).1 == f.1@;
                assert(preds@[j].1@ == sc@);
            }
        }
        let rl = chars_of(f.0.as_str()).len();
        if f.2 >= 1 && rl > typed && !dup {
            preds.push((copy_str(&f.0), copy_str(&f.1)));
            assert(pairs_of(preds@) =~= prev.push((f.0@, f.1@)));
        }
        k += 1;
    }
    assert(fv.take(found@.len() as int) =~= fv);
}

/// The kana tail a commit records as wanted in hiragana: the last
/// `tail_len` characters of the reading, when that is two or more.
pub fn hiragana_pref_tail(reading: &str, tail_len: usize) -> (r: Option<String>)
    ensures
        ({
            let keep = if tail_len >= reading@.len() {
                0
            } else {
                reading@.len() - tail_len
            };
            let tail = reading@.skip(keep);
            &&& r is Some <==> tail_len > 0 && tail.len() >= 2
            &&& r matches Some(t) ==> t@ == tail
        }),
{
    if tail_len == 0 {
        return None;
    }
    let (_, tail) = kana_tail_split(reading, tail_len);
    let tc = chars_of(tail.as_str());
    if tc.len() >= 2 {
        Some(tail)
    } else {
        None
    }
}


/// Context id of a user word (common noun).
pub const USER_WORD_POS_ID: u16 = 1285;

/// Cost of a user word registered from the session: low, so that it wins.
pub const USER_WORD_COST: i16 = 2000;

/// Learned frequency given to a user word, so that it gets the largest
/// learning bonus.
pub const USER_WORD_LEARN_FREQ: u32 = 20;

/// The dictionary word of a user word: a common noun, with the given cost
/// and part of speech (common noun when none is given).
pub fn user_word_entry(reading: String, surface: String, cost: i16, pos: Option<String>) -> (r: WordEntry)
    ensures
        r.reading == reading,
        r.surface == surface,
        r.left_id == USER_WORD_POS_ID,
        r.right_id == USER_WORD_POS_ID,
        r.cost == cost,
        r.pos@ == match pos {
            Some(p) => p@,
            None => "名詞-一般-*-*"@,
        },
{
    let pos = match pos {
        Some(p) => p,
        None => copy_str_ref("名詞-一般-*-*"),
    };
    WordEntry { surface, reading, left_id: USER_WORD_POS_ID, right_id: USER_WORD_POS_ID, cost, pos }
}

} // verus!
