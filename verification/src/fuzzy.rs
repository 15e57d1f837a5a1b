//! Spelling suggestions: a failed word of a conversion corrected to a
//! reading one edit away that converts cleanly into dictionary words, and
//! the check that a reading converts cleanly.

use vstd::prelude::*;
use crate::dictionary::{WordEntry, WordSpec, entries_view};
use crate::distance::edit_distance;
use crate::scoring::{failed_pos, is_failed_segment, fuzzy_variants, variants_upto};
use crate::text::{chars_of, chars_eq, is_hiragana_letter, string_from_chars};
use crate::viterbi::ViterbiConverter;
use crate::convert::{join_surfaces, concat_surfaces};

verus! {

/// Lexicographic order of character sequences by code point.
pub open spec fn lex_le(a: Seq<char>, b: Seq<char>) -> bool
    decreases a.len(),
{
    if a.len() == 0 {
        true
    } else if b.len() == 0 {
        false
    } else if a[0] != b[0] {
        (a[0] as u32) < (b[0] as u32)
    } else {
        lex_le(a.drop_first(), b.drop_first())
    }
}

pub proof fn lemma_lex_total(a: Seq<char>, b: Seq<char>)
    ensures
        lex_le(a, b) || lex_le(b, a),
        lex_le(a, b) && lex_le(b, a) ==> a == b,
    decreases a.len(),
{
    if a.len() > 0 && b.len() > 0 {
        if a[0] == b[0] {
            lemma_lex_total(a.drop_first(), b.drop_first());
            if lex_le(a, b) && lex_le(b, a) {
                assert(a =~= seq![a[0]] + a.drop_first());
                assert(b =~= seq![b[0]] + b.drop_first());
            }
        } else {
            vstd::utf8::char_u32_cast(a[0], a[0] as u32);
            vstd::utf8::char_u32_cast(b[0], b[0] as u32);
            assert((a[0] as u32) != (b[0] as u32));
        }
    } else if a.len() == 0 && b.len() == 0 {
        assert(a =~= b);
    }
}

pub proof fn lemma_lex_trans(a: Seq<char>, b: Seq<char>, c: Seq<char>)
    requires
        lex_le(a, b),
        lex_le(b, c),
    ensures
        lex_le(a, c),
    decreases a.len(),
{
    if a.len() > 0 && b.len() > 0 && c.len() > 0 {
        if a[0] == b[0] && b[0] == c[0] {
            lemma_lex_trans(a.drop_first(), b.drop_first(), c.drop_first());
        }
    }
}

/// Whether `a <= b` in code-point order.
pub(crate) fn lex_le_exec(a: &[char], b: &[char]) -> (r: bool)
    ensures
        r == lex_le(a@, b@),
{
    let mut i: usize = 0;
    assert(a@.skip(0) =~= a@);
    assert(b@.skip(0) =~= b@);
    while i < a.len() && i < b.len()
        invariant
            i <= a.len(),
            i <= b.len(),
            forall|k: int| 0 <= k < i ==> a@[k] == b@[k],
            lex_le(a@, b@) == lex_le(a@.skip(i as int), b@.skip(i as int)),
        decreases a.len() - i,
    {
        if a[i] != b[i] {
            assert(a@.skip(i as int)[0] == a@[i as int]);
            assert(b@.skip(i as int)[0] == b@[i as int]);
            return (a[i] as u32) < (b[i] as u32);
        }
        assert(a@.skip(i as int).drop_first() =~= a@.skip(i + 1));
        assert(b@.skip(i as int).drop_first() =~= b@.skip(i + 1));
        i += 1;
    }
    i == a.len()
}

/// Some word of `ws` has a character other than a hiragana letter.
pub open spec fn has_real(ws: Seq<WordSpec>) -> bool {
    exists|k: int, q: int| 0 <= k < ws.len() && 0 <= q < ws[k].surface.len() && !is_hiragana_letter(#[trigger] ws[k].surface[q])
}

/// Some word of `ws` is a failed segment.
pub open spec fn has_failed(ws: Seq<WordSpec>) -> bool {
    exists|k: int| 0 <= k < ws.len() && failed_pos(#[trigger] ws[k].pos)
}

fn any_failed(v: &Vec<WordEntry>) -> (r: bool)
    ensures
        r == has_failed(entries_view(v@)),
{
    let mut k: usize = 0;
    while k < v.len()
        invariant
            k <= v@.len(),
            forall|j: int| 0 <= j < k ==> !failed_pos(#[trigger] entries_view(v@)[j].pos),
        decreases v@.len() - k,
    {
        if is_failed_segment(&v[k]) {
            assert(failed_pos(entries_view(v@)[k as int].pos));
            return true;
        }
        k += 1;
    }
    false
}

fn any_real(v: &Vec<WordEntry>) -> (r: bool)
    ensures
        r == has_real(entries_view(v@)),
{
    let ghost ws = entries_view(v@);
    let mut k: usize = 0;
    while k < v.len()
        invariant
            k <= v@.len(),
            ws == entries_view(v@),
            forall|j: int, q: int| 0 <= j < k && 0 <= q < ws[j].surface.len() ==> is_hiragana_letter(#[trigger] ws[j].surface[q]),
        decreases v@.len() - k,
    {
        let cs = chars_of(v[k].surface.as_str());
        let mut q: usize = 0;
        while q < cs.len()
            invariant
                k < v@.len(),
                ws == entries_view(v@),
                cs@ == ws[k as int].surface,
                q <= cs@.len(),
                forall|j: int| 0 <= j < q ==> is_hiragana_letter(#[trigger] ws[k as int].surface[j]),
            decreases cs@.len() - q,
        {
            let u = cs[q] as u32;
            if !(0x3041 <= u && u <= 0x3096) {
                assert(!is_hiragana_letter(ws[k as int].surface[q as int]));
                return true;
            }
            q += 1;
        }
        k += 1;
    }
    false
}

/// A correction candidate for `w`: a one-edit spelling variant other than
/// `w`, or a dictionary reading at edit distance 1.
pub open spec fn is_candidate(words: Map<Seq<char>, Seq<WordSpec>>, w: Seq<char>, v: Seq<char>) -> bool {
    ||| v != w && exists|k: int| 0 <= k < variants_upto(w, w.len()).len() && #[trigger] variants_upto(w, w.len())[k].0 == v
    ||| v != w && words.contains_key(v) && 0 < edit_distance(w, v) <= 1
}

/// `(c1, v1)` comes no later than `(c2, v2)`: lower cost first, then
/// code-point order.
pub open spec fn key_le(c1: i32, v1: Seq<char>, c2: i32, v2: Seq<char>) -> bool {
    c1 < c2 || (c1 == c2 && lex_le(v1, v2))
}

impl ViterbiConverter {
    /// `v` converts into words none of which failed, at least one with a
    /// character other than hiragana, at a cost below half the largest
    /// `i32`.
    pub open spec fn converts_to_real(&self, v: Seq<char>) -> bool {
        &&& self.conversion_cost(v) < 0x3FFF_FFFF
        &&& !has_failed(self.conversion(v))
        &&& has_real(self.conversion(v))
    }

    /// `v` is an acceptable correction of `w`.
    pub open spec fn good_correction(&self, w: Seq<char>, v: Seq<char>) -> bool {
        is_candidate(self.dictionary.words(), w, v) && self.converts_to_real(v)
    }

    /// `v` is the acceptable correction of `w` with the lowest conversion
    /// cost, the first in code-point order among equals.
    pub open spec fn best_correction_is(&self, w: Seq<char>, v: Seq<char>) -> bool {
        &&& self.good_correction(w, v)
        &&& forall|u: Seq<char>| #[trigger] self.good_correction(w, u) ==> key_le(self.conversion_cost(v), v, self.conversion_cost(u), u)
    }

    /// The correction of `w` (a word of 2 to 16 characters), if any.
    pub open spec fn best_correction(&self, w: Seq<char>) -> Option<Seq<char>> {
        if w.len() < 2 || w.len() > 16 || !(exists|v: Seq<char>| self.good_correction(w, v)) {
            None
        } else {
            Some(choose|v: Seq<char>| self.best_correction_is(w, v))
        }
    }

    /// The reading `s` converts with no failed segment: its words and cost.
    pub open spec fn clean_conversion(&self, s: Seq<char>) -> Option<(Seq<char>, i32)> {
        if s.len() == 0 || self.conversion(s).len() == 0 || self.conversion_cost(s) >= 0x3FFF_FFFF || has_failed(self.conversion(s)) {
            None
        } else {
            Some((join_surfaces(self.conversion(s)), self.conversion_cost(s)))
        }
    }

    /// Whether `reading` converts with no unknown word and no katakana
    /// fallback; if so, the converted string and its cost.
    pub fn clean_reading(&self, reading: &str) -> (r: Option<(String, i32)>)
        requires
            self.wf(),
        ensures
            match r {
                Some((s, c)) => self.clean_conversion(reading@) == Some((s@, c)),
                None => self.clean_conversion(reading@) is None,
            },
    {
        let rc = chars_of(reading);
        if rc.len() == 0 {
            return None;
        }
        let (path, cost) = self.convert_with_cost(reading);
        if path.len() == 0 || cost >= i32::MAX / 2 || any_failed(&path) {
            return None;
        }
        let surface = concat_surfaces(&path);
        Some((surface, cost))
    }

    /// Checks the candidate `v` and keeps it if it beats `best`.
    fn consider(&self, v: &String, best: &mut Option<(String, i32)>, Ghost(w): Ghost<Seq<char>>)
        requires
            self.wf(),
            is_candidate(self.dictionary.words(), w, v@),
            match *old(best) {
                Some((b, c)) => self.good_correction(w, b@) && c == self.conversion_cost(b@),
                None => true,
            },
        ensures
            match *final(best) {
                Some((b, c)) => self.good_correction(w, b@) && c == self.conversion_cost(b@)
                    && (self.good_correction(w, v@) ==> key_le(c, b@, self.conversion_cost(v@), v@))
                    && (match *old(best) {
                        Some((ob, oc)) => key_le(c, b@, oc, ob@),
                        None => true,
                    }),
                None => *old(best) is None && !self.good_correction(w, v@),
            },
    {
        let (path, cost) = self.convert_with_cost(v.as_str());
        let ghost gb = *best;
        if cost >= i32::MAX / 2 || any_failed(&path) || !any_real(&path) {
            proof {
                match gb {
                    Some((b, c)) => {
                        lemma_lex_total(b@, b@);
                    },
                    None => {},
                }
            }
            return;
        }
        let better = match best {
            None => true,
            Some((bv, bc)) => {
                let vc = chars_of(v.as_str());
                let bcs = chars_of(bv.as_str());
                cost < *bc || (cost == *bc && !lex_le_exec(bcs.as_slice(), vc.as_slice()))
            },
        };
        let ghost ob = *best;
        if better {
            proof {
                lemma_lex_total(v@, v@);
                match ob {
                    Some((b, c)) => {
                        lemma_lex_total(b@, v@);
                    },
                    None => {},
                }
            }
            *best = Some((v.clone(), cost));
        } else {
            proof {
                match ob {
                    Some((b, c)) => {
                        lemma_lex_total(b@, b@);
                    },
                    None => {},
                }
            }
        }
    }

    /// Corrects one failed word to a reading one edit away that converts
    /// into real dictionary words: the cheapest such conversion, the first
    /// in code-point order among equals.
    fn best_word_correction(&self, word: &str) -> (r: Option<String>)
        requires
            self.wf(),
        ensures
            r matches Some(v) ==> self.best_correction(word@) == Some(v@),
            r is None ==> self.best_correction(word@) is None,
    {
        let wc = chars_of(word);
        let n = wc.len();
        if n < 2 || n > 16 {
            return None;
        }
        let mut best: Option<(String, i32)> = None;
        let variants = fuzzy_variants(word);
        let ghost vs = variants_upto(word@, word@.len());
        let ghost words = self.dictionary.words();
        let mut k: usize = 0;
        while k < variants.len()
            invariant
                self.wf(),
                wc@ == word@,
                vs == variants_upto(word@, word@.len()),
                variants@.map_values(|v: (String, bool)| (v.0@, v.1)) == vs,
                k <= variants@.len(),
                match best {
                    Some((b, c)) => self.good_correction(word@, b@) && c == self.conversion_cost(b@)
                        && forall|j: int| 0 <= j < k && #[trigger] self.good_correction(word@, variants@[j].0@)
                            ==> key_le(c, b@, self.conversion_cost(variants@[j].0@), variants@[j].0@),
                    None => forall|j: int| 0 <= j < k ==> !#[trigger] self.good_correction(word@, variants@[j].0@),
                },
            decreases variants@.len() - k,
        {
            let vc = chars_of(variants[k].0.as_str());
            let ghost ob = best;
            proof {
                assert(variants@.map_values(|v: (String, bool)| (v.0@, v.1))[k as int] == (variants@[k as int].0@, variants@[k as int].1));
                assert(vs[k as int].0 == variants@[k as int].0@);
            }
            let same = chars_eq(vc.as_slice(), wc.as_slice());
            if !same {
                proof {
                    assert(variants_upto(word@, word@.len())[k as int].0 == variants@[k as int].0@);
                    assert(is_candidate(words, word@, variants@[k as int].0@));
                }
                self.consider(&variants[k].0, &mut best, Ghost(word@));
                let ghost nb = best;
                proof {
                    match nb {
                        Some((b, c)) => {
                            assert forall|j: int| 0 <= j < k + 1 && #[trigger] self.good_correction(word@, variants@[j].0@)
                                implies key_le(c, b@, self.conversion_cost(variants@[j].0@), variants@[j].0@) by {
                                if j < k {
                                    match ob {
                                        Some((b0, c0)) => {
                                            let u = variants@[j].0@;
                                            if c0 == self.conversion_cost(u) && c == c0 {
                                                lemma_lex_trans(b@, b0@, u);
                                            }
                                        },
                                        None => {},
                                    }
                                }
                            }
                        },
                        None => {},
                    }
                }
            } else {
                proof {
                    assert(variants@[k as int].0@ == word@);
                    assert(!self.good_correction(word@, variants@[k as int].0@));
                }
            }
            k += 1;
        }
        let trie = self.dictionary.fuzzy_readings(word, 1);
        let mut t: usize = 0;
        while t < trie.len()
            invariant
                self.wf(),
                wc@ == word@,
                vs == variants_upto(word@, word@.len()),
                variants@.map_values(|v: (String, bool)| (v.0@, v.1)) == vs,
                forall|q: int| 0 <= q < trie@.len() ==> {
                    let h = #[trigger] trie@[q];
                    &&& self.dictionary.words().contains_key(h.0@)
                    &&& h.1 == edit_distance(word@, h.0@)
                    &&& h.1 <= 1
                },
                t <= trie@.len(),
                match best {
                    Some((b, c)) => self.good_correction(word@, b@) && c == self.conversion_cost(b@)
                        && (forall|j: int| 0 <= j < variants@.len() && #[trigger] self.good_correction(word@, variants@[j].0@)
                            ==> key_le(c, b@, self.conversion_cost(variants@[j].0@), variants@[j].0@))
                        && (forall|j: int| 0 <= j < t && #[trigger] self.good_correction(word@, trie@[j].0@)
                            ==> key_le(c, b@, self.conversion_cost(trie@[j].0@), trie@[j].0@)),
                    None => (forall|j: int| 0 <= j < variants@.len() ==> !#[trigger] self.good_correction(word@, variants@[j].0@))
                        && (forall|j: int| 0 <= j < t ==> !#[trigger] self.good_correction(word@, trie@[j].0@)),
                },
            decreases trie@.len() - t,
        {
            let vc = chars_of(trie[t].0.as_str());
            let ghost ob = best;
            let same = chars_eq(vc.as_slice(), wc.as_slice());
            let d = trie[t].1;
            proof {
                let h = trie@[t as int];
                assert(self.dictionary.words().contains_key(h.0@) && h.1 == edit_distance(word@, h.0@) && h.1 <= 1);
            }
            if !same && d > 0 {
                assert(is_candidate(self.dictionary.words(), word@, trie@[t as int].0@));
                self.consider(&trie[t].0, &mut best, Ghost(word@));
                let ghost nb = best;
                proof {
                    match nb {
                        Some((b, c)) => {
                            match ob {
                                Some((b0, c0)) => {
                                    assert forall|j: int| 0 <= j < variants@.len() && #[trigger] self.good_correction(word@, variants@[j].0@)
                                        implies key_le(c, b@, self.conversion_cost(variants@[j].0@), variants@[j].0@) by {
                                        let u = variants@[j].0@;
                                        if c0 == self.conversion_cost(u) && c == c0 {
                                            lemma_lex_trans(b@, b0@, u);
                                        }
                                    }
                                    assert forall|j: int| 0 <= j < t + 1 && #[trigger] self.good_correction(word@, trie@[j].0@)
                                        implies key_le(c, b@, self.conversion_cost(trie@[j].0@), trie@[j].0@) by {
                                        if j < t {
                                            let u = trie@[j].0@;
                                            if c0 == self.conversion_cost(u) && c == c0 {
                                                lemma_lex_trans(b@, b0@, u);
                                            }
                                        }
                                    }
                                },
                                None => {},
                            }
                        },
                        None => {},
                    }
                }
            } else {
                proof {
                    let h = trie@[t as int];
                    if self.good_correction(word@, h.0@) {
                        assert(h.0@ != word@);
                        assert(d == 0);
                        let k = choose|k: int| 0 <= k < vs.len() && #[trigger] vs[k].0 == h.0@;
                        assert(variants@.map_values(|v: (String, bool)| (v.0@, v.1))[k] == (variants@[k].0@, variants@[k].1));
                        assert(vs[k].0 == variants@[k].0@);
                        assert(self.good_correction(word@, variants@[k].0@));
                    }
                }
            }
            t += 1;
        }
        let ghost final_best = best;
        match best {
            Some((b, _c)) => {
                proof {
                    assert forall|u: Seq<char>| #[trigger] self.good_correction(word@, u) implies key_le(self.conversion_cost(b@), b@, self.conversion_cost(u), u) by {
                        if u != word@ && exists|k: int| 0 <= k < vs.len() && #[trigger] vs[k].0 == u {
                            let k = choose|k: int| 0 <= k < vs.len() && #[trigger] vs[k].0 == u;
                            assert(vs[k].0 == variants@[k].0@);
                            assert(self.good_correction(word@, variants@[k].0@));
                        } else {
                            assert(self.dictionary.words().contains_key(u) && edit_distance(word@, u) <= 1);
                            let q = choose|q: int| 0 <= q < trie@.len() && (#[trigger] trie@[q]).0@ == u;
                            assert(self.good_correction(word@, trie@[q].0@));
                        }
                    }
                    assert(self.best_correction_is(word@, b@));
                    let v = choose|v: Seq<char>| self.best_correction_is(word@, v);
                    assert(self.best_correction_is(word@, v));
                    lemma_lex_total(b@, v);
                    assert(key_le(self.conversion_cost(b@), b@, self.conversion_cost(v), v));
                    assert(key_le(self.conversion_cost(v), v, self.conversion_cost(b@), b@));
                }
                Some(b)
            },
            None => {
                proof {
                    assert forall|u: Seq<char>| !self.good_correction(word@, u) by {
                        if self.good_correction(word@, u) {
                            if u != word@ && exists|k: int| 0 <= k < vs.len() && #[trigger] vs[k].0 == u {
                                let k = choose|k: int| 0 <= k < vs.len() && #[trigger] vs[k].0 == u;
                                assert(vs[k].0 == variants@[k].0@);
                                assert(self.good_correction(word@, variants@[k].0@));
                            } else {
                                assert(self.dictionary.words().contains_key(u) && edit_distance(word@, u) <= 1);
                                let q = choose|q: int| 0 <= q < trie@.len() && (#[trigger] trie@[q]).0@ == u;
                                assert(self.good_correction(word@, trie@[q].0@));
                            }
                        }
                    }
                }
                None
            },
        }
    }
}


/// The readings of `ws`, one after another.
pub open spec fn join_readings(ws: Seq<WordSpec>) -> Seq<char>
    decreases ws.len(),
{
    if ws.len() == 0 {
        Seq::empty()
    } else {
        join_readings(ws.drop_last()) + ws.last().reading
    }
}

/// The maximal runs `(start, end)` of failed segments of `segs` from
/// position `i` on, where `cur` is the start of the run in progress.
pub open spec fn failed_runs(segs: Seq<WordSpec>, i: int, cur: Option<int>) -> Seq<(int, int)>
    decreases segs.len() - i,
{
    if i >= segs.len() || i < 0 {
        match cur {
            Some(a) => seq![(a, segs.len() as int)],
            None => Seq::empty(),
        }
    } else if failed_pos(segs[i].pos) {
        failed_runs(segs, i + 1, if cur is Some { cur } else { Some(i) })
    } else {
        (match cur {
            Some(a) => seq![(a, i)],
            None => Seq::empty(),
        }) + failed_runs(segs, i + 1, None)
    }
}

/// The last of `runs` whose reading has at least two characters.
pub open spec fn last_long(segs: Seq<WordSpec>, runs: Seq<(int, int)>) -> Option<(int, int)>
    decreases runs.len(),
{
    if runs.len() == 0 {
        None
    } else if join_readings(segs.subrange(runs.last().0, runs.last().1)).len() >= 2 {
        Some(runs.last())
    } else {
        last_long(segs, runs.drop_last())
    }
}

pub open spec fn all_hiragana_letters(s: Seq<char>) -> bool {
    forall|i: int| 0 <= i < s.len() ==> is_hiragana_letter(#[trigger] s[i])
}

pub(crate) fn append_chars(out: &mut String, s: &str)
    ensures
        final(out)@ == old(out)@ + s@,
{
    let cs = chars_of(s);
    let mut i: usize = 0;
    while i < cs.len()
        invariant
            i <= cs@.len(),
            cs@ == s@,
            out@ == old(out)@ + cs@.take(i as int),
        decreases cs@.len() - i,
    {
        crate::text::push_char(out, cs[i]);
        assert(cs@.take(i + 1) =~= cs@.take(i as int).push(cs@[i as int]));
        i += 1;
    }
    assert(cs@.take(cs@.len() as int) =~= cs@);
}

/// The readings of `segs[from .. to]` joined.
fn readings_between(segs: &Vec<WordEntry>, from: usize, to: usize) -> (r: String)
    requires
        from <= to <= segs@.len(),
    ensures
        r@ == join_readings(entries_view(segs@).subrange(from as int, to as int)),
{
    let ghost v = entries_view(segs@);
    let mut out = String::new();
    let mut k: usize = from;
    assert(v.subrange(from as int, from as int) =~= Seq::<WordSpec>::empty());
    while k < to
        invariant
            from <= k <= to <= segs@.len(),
            v == entries_view(segs@),
            out@ == join_readings(v.subrange(from as int, k as int)),
        decreases to - k,
    {
        append_chars(&mut out, segs[k].reading.as_str());
        proof {
            assert(v.subrange(from as int, k + 1).drop_last() =~= v.subrange(from as int, k as int));
            assert(v.subrange(from as int, k + 1).last() == segs@[k as int]@);
        }
        k += 1;
    }
    out
}

impl ViterbiConverter {
    /// The suggestion for `s`: the last failed run of its context-aware
    /// conversion with a reading of two characters or more, corrected,
    /// with the conversion of the corrected reading; none when nothing
    /// failed, no correction exists, or the corrected conversion is the
    /// same or all hiragana.
    pub open spec fn suggestion(&self, s: Seq<char>) -> Option<(Seq<char>, Seq<char>)> {
        if s.len() < 2 || s.len() > 32 {
            None
        } else {
            let segs = self.context_conversion(s);
            match last_long(segs, failed_runs(segs, 0, None)) {
                None => None,
                Some(g) => match self.best_correction(join_readings(segs.subrange(g.0, g.1))) {
                    None => None,
                    Some(c) => {
                        let nr = join_readings(segs.take(g.0)) + c + join_readings(segs.skip(g.1));
                        let surface = join_surfaces(self.context_conversion(nr));
                        if surface == join_surfaces(segs) || all_hiragana_letters(surface) {
                            None
                        } else {
                            Some((nr, surface))
                        }
                    },
                },
            }
        }
    }

    /// The runs of failed segments, as the scan finds them.
    fn failed_runs_exec(segs: &Vec<WordEntry>) -> (r: Vec<(usize, usize)>)
        ensures
            r@.map_values(|g: (usize, usize)| (g.0 as int, g.1 as int)) == failed_runs(entries_view(segs@), 0, None),
            forall|k: int| 0 <= k < r@.len() ==> (#[trigger] r@[k]).0 <= r@[k].1 <= segs@.len(),
    {
        let ghost v = entries_view(segs@);
        let mut out: Vec<(usize, usize)> = Vec::new();
        let mut cur: Option<usize> = None;
        let mut i: usize = 0;
        let n = segs.len();
        while i < n
            invariant
                n == segs@.len(),
                v == entries_view(segs@),
                i <= n,
                cur matches Some(a) ==> a < i,
                forall|k: int| 0 <= k < out@.len() ==> (#[trigger] out@[k]).0 <= out@[k].1 <= n,
                failed_runs(v, 0, None) == out@.map_values(|g: (usize, usize)| (g.0 as int, g.1 as int)) + failed_runs(v, i as int, match cur {
                    Some(a) => Some(a as int),
                    None => None,
                }),
            decreases n - i,
        {
            let ghost before = out@.map_values(|g: (usize, usize)| (g.0 as int, g.1 as int));
            if is_failed_segment(&segs[i]) {
                if cur.is_none() {
                    cur = Some(i);
                }
            } else {
                match cur {
                    Some(a) => {
                        out.push((a, i));
                        assert(out@.map_values(|g: (usize, usize)| (g.0 as int, g.1 as int)) =~= before + seq![(a as int, i as int)]);
                    },
                    None => {
                        assert(out@.map_values(|g: (usize, usize)| (g.0 as int, g.1 as int)) =~= before + Seq::<(int, int)>::empty());
                    },
                }
                cur = None;
            }
            i += 1;
        }
        let ghost before = out@.map_values(|g: (usize, usize)| (g.0 as int, g.1 as int));
        match cur {
            Some(a) => {
                out.push((a, n));
                assert(out@.map_values(|g: (usize, usize)| (g.0 as int, g.1 as int)) =~= before + seq![(a as int, n as int)]);
            },
            None => {
                assert(out@.map_values(|g: (usize, usize)| (g.0 as int, g.1 as int)) =~= before + Seq::<(int, int)>::empty());
            },
        }
        out
    }

    /// "Did you mean": corrects the last word the conversion failed on to
    /// a reading that converts into real words; returns the corrected
    /// reading and its conversion.
    pub fn fuzzy_suggest(&self, reading: &str) -> (r: Option<(String, String)>)
        requires
            self.wf(),
        ensures
            match r {
                Some((a, b)) => self.suggestion(reading@) == Some((a@, b@)),
                None => self.suggestion(reading@) is None,
            },
    {
        let rc = chars_of(reading);
        let total_n = rc.len();
        if total_n < 2 || total_n > 32 {
            return None;
        }
        let segments = self.convert_context_aware(reading);
        let ghost segs = entries_view(segments@);
        let runs = Self::failed_runs_exec(&segments);
        let ghost rv = runs@.map_values(|g: (usize, usize)| (g.0 as int, g.1 as int));
        let mut k: usize = runs.len();
        let mut found: Option<(usize, usize, String)> = None;
        assert(rv.take(rv.len() as int) =~= rv);
        while k > 0
            invariant_except_break
                found is None,
                last_long(segs, rv) == last_long(segs, rv.take(k as int)),
            invariant
                k <= runs@.len(),
                rv == runs@.map_values(|g: (usize, usize)| (g.0 as int, g.1 as int)),
                segs == entries_view(segments@),
                forall|q: int| 0 <= q < runs@.len() ==> (#[trigger] runs@[q]).0 <= runs@[q].1 <= segments@.len(),
            ensures
                match found {
                    Some((a, b, rd)) => last_long(segs, rv) == Some((a as int, b as int)) && rd@ == join_readings(segs.subrange(a as int, b as int)) && a <= b <= segments@.len(),
                    None => last_long(segs, rv) is None,
                },
            decreases k,
        {
            k -= 1;
            let (a, b) = runs[k];
            proof {
                assert(rv[k as int] == (a as int, b as int));
                assert(rv.take(k + 1).drop_last() =~= rv.take(k as int));
                assert(rv.take(k + 1).last() == rv[k as int]);
                assert(a <= b <= segments@.len());
            }
            let rd = readings_between(&segments, a, b);
            let rdc = chars_of(rd.as_str());
            if rdc.len() >= 2 {
                found = Some((a, b, rd));
                break;
            }
        }
        proof {
            if found is None {
                assert(rv.take(0) =~= Seq::<(int, int)>::empty());
            }
        }
        let (gs, ge, target) = match found {
            Some(t) => t,
            None => {
                return None;
            },
        };
        let corrected = match self.best_word_correction(target.as_str()) {
            Some(c) => c,
            None => {
                return None;
            },
        };
        let mut new_reading = readings_between(&segments, 0, gs);
        append_chars(&mut new_reading, corrected.as_str());
        let tail = readings_between(&segments, ge, segments.len());
        append_chars(&mut new_reading, tail.as_str());
        let base_surface = concat_surfaces(&segments);
        let surface = self.convert_context_aware_to_string(new_reading.as_str());
        let sc = chars_of(surface.as_str());
        let bc = chars_of(base_surface.as_str());
        if chars_eq(sc.as_slice(), bc.as_slice()) {
            return None;
        }
        let mut all_hira = true;
        let mut i: usize = 0;
        while i < sc.len()
            invariant
                i <= sc@.len(),
                all_hira == (forall|j: int| 0 <= j < i ==> is_hiragana_letter(#[trigger] sc@[j])),
            decreases sc@.len() - i,
        {
            let u = sc[i] as u32;
            if !(0x3041 <= u && u <= 0x3096) {
                all_hira = false;
            }
            i += 1;
        }
        if all_hira {
            return None;
        }
        Some((new_reading, surface))
    }
}
} // verus!
