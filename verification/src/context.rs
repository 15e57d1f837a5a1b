//! Context-aware conversion: the best conversion, then each content word
//! swapped for a homophone when learned associations with the other
//! content words of the sentence outweigh the extra cost.

use vstd::prelude::*;
use crate::dictionary::{WordEntry, WordSpec, entries_view};
use crate::lattice::{sat, sat_add, sat_sub};
use crate::scoring::{content_pos, kanji_penalty_of, lone_particles, is_content_pos, is_lone_particle, single_kanji_penalty};
use crate::text::{chars_of, chars_eq};
use crate::viterbi::ViterbiConverter;
use crate::convert::{join_surfaces, concat_surfaces};

verus! {

/// A content word whose surface differs from its reading.
pub open spec fn is_content(e: WordSpec) -> bool {
    content_pos(e.pos) && e.surface != e.reading
}

impl ViterbiConverter {
    /// Learned association score of `(a, b)`, 0 when none.
    pub open spec fn assoc_val(&self, a: Seq<char>, b: Seq<char>) -> int {
        if self.learned_assoc@.contains_key((a, b)) {
            self.learned_assoc@[(a, b)] as int
        } else {
            0
        }
    }

    /// Association of `alt` with the content words among `base[..n]`
    /// other than `base[i]`, both ways.
    pub open spec fn assoc_score(&self, base: Seq<WordSpec>, i: int, alt: Seq<char>, n: nat) -> int
        decreases n,
    {
        if n == 0 {
            0
        } else {
            let j = n - 1;
            self.assoc_score(base, i, alt, (n - 1) as nat) + if j != i && is_content(base[j]) {
                self.assoc_val(base[j].surface, alt) + self.assoc_val(alt, base[j].surface)
            } else {
                0
            }
        }
    }

    /// Cost of a word with the one-kanji penalty and the learned bonus.
    pub open spec fn effective_cost(&self, e: WordSpec) -> i32 {
        sat(sat(e.cost + kanji_penalty_of(e.surface, self.single_kanji_penalty)) - self.unigram_bonus(e))
    }

    /// Net gain of putting `alt` at position `i` of `base`: association
    /// minus the extra cost.
    pub open spec fn swap_gain(&self, base: Seq<WordSpec>, i: int, alt: WordSpec) -> i32 {
        sat(self.assoc_score(base, i, alt.surface, base.len()) - (self.effective_cost(alt) - self.effective_cost(base[i])))
    }

    /// The first homophone among `alts[..n]` with the largest positive
    /// gain, and that gain (0 when none).
    pub open spec fn best_swap(&self, base: Seq<WordSpec>, i: int, alts: Seq<WordSpec>, n: nat) -> (Option<WordSpec>, i32)
        decreases n,
    {
        if n == 0 {
            (None, 0)
        } else {
            let prev = self.best_swap(base, i, alts, (n - 1) as nat);
            let a = alts[n - 1];
            if a.surface == base[i].surface || self.assoc_score(base, i, a.surface, base.len()) == 0 {
                prev
            } else if self.swap_gain(base, i, a) > prev.1 {
                (Some(a), self.swap_gain(base, i, a))
            } else {
                prev
            }
        }
    }

    /// The word at position `i` after the swap, if any.
    pub open spec fn swapped(&self, base: Seq<WordSpec>, i: int) -> WordSpec {
        let e = base[i];
        if is_content(e) && self.dictionary.words().contains_key(e.reading) {
            let alts = self.dictionary.words()[e.reading];
            match self.best_swap(base, i, alts, alts.len()).0 {
                Some(a) => a,
                None => e,
            }
        } else {
            e
        }
    }

    /// `base` with each content word swapped where associations win.
    pub open spec fn reranked(&self, base: Seq<WordSpec>) -> Seq<WordSpec> {
        if self.learned_assoc@.dom() == Set::<(Seq<char>, Seq<char>)>::empty() || base.len() < 2 {
            base
        } else {
            Seq::new(base.len(), |i: int| self.swapped(base, i))
        }
    }

    /// The word a lone particle converts to: itself.
    pub open spec fn particle_word(&self, s: Seq<char>) -> WordSpec {
        WordSpec {
            surface: s,
            reading: s,
            left_id: self.dictionary.bos_id,
            right_id: self.dictionary.eos_id,
            cost: 0,
            pos: "助詞-係助詞-*-*"@,
        }
    }

    /// Context-aware conversion of `s`.
    pub open spec fn context_conversion(&self, s: Seq<char>) -> Seq<WordSpec> {
        if lone_particles().contains(s) {
            seq![self.particle_word(s)]
        } else {
            self.reranked(self.conversion(s))
        }
    }

    /// Cost of a word with the one-kanji penalty and the learned bonus.
    fn effective_word_cost(&self, e: &WordEntry) -> (r: i32)
        ensures
            r == self.effective_cost(e@),
    {
        let pen = single_kanji_penalty(e.surface.as_str(), self.single_kanji_penalty);
        let r = chars_of(e.reading.as_str());
        let s = chars_of(e.surface.as_str());
        let bonus = match self.learned_unigram.get_chars(r.as_slice(), s.as_slice()) {
            Some(b) => b,
            None => 0,
        };
        sat_sub(sat_add(e.cost as i32, pen), bonus)
    }

    /// Association score of `alt` against the content words other than
    /// position `i`.
    fn assoc_score_exec(&self, content: &Vec<bool>, surfaces: &Vec<Vec<char>>, i: usize, alt: &Vec<char>, Ghost(base): Ghost<Seq<WordSpec>>) -> (r: i128)
        requires
            content@.len() == base.len(),
            surfaces@.len() == base.len(),
            forall|j: int| 0 <= j < base.len() ==> #[trigger] content@[j] == is_content(base[j]) && surfaces@[j]@ == base[j].surface,
        ensures
            r == self.assoc_score(base, i as int, alt@, base.len()),
            -0x1_0000_0000 * base.len() <= r <= 0x1_0000_0000 * base.len(),
    {
        let n = content.len();
        let mut sum: i128 = 0;
        let mut j: usize = 0;
        while j < n
            invariant
                n == base.len(),
                content@.len() == base.len(),
                surfaces@.len() == base.len(),
                forall|k: int| 0 <= k < base.len() ==> #[trigger] content@[k] == is_content(base[k]) && surfaces@[k]@ == base[k].surface,
                j <= n,
                sum == self.assoc_score(base, i as int, alt@, j as nat),
                -0x1_0000_0000 * j <= sum <= 0x1_0000_0000 * j,
            decreases n - j,
        {
            if j != i && content[j] {
                let a = match self.learned_assoc.get_chars(surfaces[j].as_slice(), alt.as_slice()) {
                    Some(v) => v,
                    None => 0,
                };
                let b = match self.learned_assoc.get_chars(alt.as_slice(), surfaces[j].as_slice()) {
                    Some(v) => v,
                    None => 0,
                };
                sum = sum + a as i128 + b as i128;
            }
            j += 1;
        }
        sum
    }

    /// Swaps content words of `base` for homophones that the learned
    /// associations favour.
    fn rerank_by_assoc(&self, base: Vec<WordEntry>) -> (r: Vec<WordEntry>)
        requires
            self.wf(),
        ensures
            entries_view(r@) == self.reranked(entries_view(base@)),
    {
        let ghost bv = entries_view(base@);
        if self.learned_assoc.is_empty() || base.len() < 2 {
            return base;
        }
        let n = base.len();
        let mut content: Vec<bool> = Vec::new();
        let mut surfaces: Vec<Vec<char>> = Vec::new();
        let mut k: usize = 0;
        while k < n
            invariant
                n == base@.len(),
                bv == entries_view(base@),
                k <= n,
                content@.len() == k,
                surfaces@.len() == k,
                forall|j: int| 0 <= j < k ==> #[trigger] content@[j] == is_content(bv[j]) && surfaces@[j]@ == bv[j].surface,
            decreases n - k,
        {
            let e = &base[k];
            let s = chars_of(e.surface.as_str());
            let rd = chars_of(e.reading.as_str());
            let c = is_content_pos(e.pos.as_str()) && !chars_eq(s.as_slice(), rd.as_slice());
            content.push(c);
            surfaces.push(s);
            k += 1;
        }
        let mut out: Vec<WordEntry> = Vec::new();
        let mut i: usize = 0;
        while i < n
            invariant
                self.wf(),
                n == base@.len(),
                n >= 2,
                !(self.learned_assoc@.dom() == Set::<(Seq<char>, Seq<char>)>::empty()),
                bv == entries_view(base@),
                content@.len() == n,
                surfaces@.len() == n,
                forall|j: int| 0 <= j < n ==> #[trigger] content@[j] == is_content(bv[j]) && surfaces@[j]@ == bv[j].surface,
                i <= n,
                out@.len() == i,
                forall|j: int| 0 <= j < i ==> (#[trigger] out@[j])@ == self.swapped(bv, j),
            decreases n - i,
        {
            let cur = &base[i];
            let mut chosen: Option<&WordEntry> = None;
            if content[i] {
                match self.dictionary.lookup(cur.reading.as_str()) {
                    Some(alts) => {
                        let ghost av = entries_view(alts@);
                        let cur_cost = self.effective_word_cost(cur);
                        let mut best: Option<&WordEntry> = None;
                        let mut best_gain: i32 = 0;
                        let mut a: usize = 0;
                        while a < alts.len()
                            invariant
                                n == bv.len(),
                                i < n,
                                content@.len() == n,
                                surfaces@.len() == n,
                                forall|j: int| 0 <= j < n ==> #[trigger] content@[j] == is_content(bv[j]) && surfaces@[j]@ == bv[j].surface,
                                av == entries_view(alts@),
                                cur@ == bv[i as int],
                                cur_cost == self.effective_cost(bv[i as int]),
                                a <= alts@.len(),
                                (match best {
                                    Some(b) => Some(b@),
                                    None => None,
                                }, best_gain) == self.best_swap(bv, i as int, av, a as nat),
                            decreases alts@.len() - a,
                        {
                            let alt = &alts[a];
                            let asurf = chars_of(alt.surface.as_str());
                            proof {
                                assert(content@[i as int] == is_content(bv[i as int]) && surfaces@[i as int]@ == bv[i as int].surface);
                                assert(av[a as int] == alt@);
                            }
                            if !chars_eq(asurf.as_slice(), surfaces[i].as_slice()) {
                                let score = self.assoc_score_exec(&content, &surfaces, i, &asurf, Ghost(bv));
                                if score != 0 {
                                    let alt_cost = self.effective_word_cost(alt);
                                    let d: i128 = alt_cost as i128 - cur_cost as i128;
                                    let raw: i128 = score - d;
                                    let net: i32 = if raw > 0x7FFF_FFFF {
                                        i32::MAX
                                    } else if raw < -0x8000_0000 {
                                        i32::MIN
                                    } else {
                                        raw as i32
                                    };
                                    if net > best_gain {
                                        best_gain = net;
                                        best = Some(alt);
                                    }
                                }
                            }
                            a += 1;
                        }
                        chosen = best;
                    },
                    None => {},
                }
            }
            match chosen {
                Some(alt) => {
                    out.push(alt.clone());
                },
                None => {
                    out.push(cur.clone());
                },
            }
            i += 1;
        }
        proof {
            assert(entries_view(out@) =~= self.reranked(bv));
        }
        out
    }

    /// Converts `reading` and then swaps content words for homophones that
    /// the learned associations with the rest of the sentence favour; a
    /// reading that is one particle stays as it is.
    pub fn convert_context_aware(&self, reading: &str) -> (r: Vec<WordEntry>)
        requires
            self.wf(),
        ensures
            entries_view(r@) == self.context_conversion(reading@),
    {
        if is_lone_particle(reading) {
            let mut v: Vec<WordEntry> = Vec::new();
            v.push(WordEntry {
                surface: reading.to_owned(),
                reading: reading.to_owned(),
                left_id: self.dictionary.bos_id,
                right_id: self.dictionary.eos_id,
                cost: 0,
                pos: "助詞-係助詞-*-*".to_owned(),
            });
            assert(entries_view(v@) =~= seq![self.particle_word(reading@)]);
            return v;
        }
        let base = self.convert(reading);
        self.rerank_by_assoc(base)
    }

    /// The context-aware conversion as a string.
    pub fn convert_context_aware_to_string(&self, reading: &str) -> (r: String)
        requires
            self.wf(),
        ensures
            r@ == join_surfaces(self.context_conversion(reading@)),
    {
        let v = self.convert_context_aware(reading);
        concat_surfaces(&v)
    }
}


/// How many content words among `base[..n]`, other than `base[i]`, have the
/// surface `w`.
pub open spec fn others_with_surface(base: Seq<WordSpec>, i: int, w: Seq<char>, n: nat) -> nat
    decreases n,
{
    if n == 0 {
        0
    } else {
        let j = n - 1;
        others_with_surface(base, i, w, (n - 1) as nat) + if j != i && is_content(base[j]) && base[j].surface == w {
            1nat
        } else {
            0nat
        }
    }
}

/// The association score of a candidate does not depend on the order in
/// which a pair was learned: with every learned pair of `a` turned round in
/// `b`, each candidate scores the same against the same sentence.
pub proof fn law_assoc_both_ways(
    a: ViterbiConverter,
    b: ViterbiConverter,
    base: Seq<WordSpec>,
    i: int,
    alt: Seq<char>,
    n: nat,
)
    requires
        forall|x: Seq<char>, y: Seq<char>|
            #![trigger a.learned_assoc@.contains_key((x, y))]
            #![trigger b.learned_assoc@.contains_key((y, x))]
            a.learned_assoc@.contains_key((x, y)) <==> b.learned_assoc@.contains_key((y, x)),
        forall|x: Seq<char>, y: Seq<char>| #[trigger]
            a.learned_assoc@.contains_key((x, y)) ==> a.learned_assoc@[(x, y)] == b.learned_assoc@[(y, x)],
    ensures
        a.assoc_score(base, i, alt, n) == b.assoc_score(base, i, alt, n),
    decreases n,
{
    if n > 0 {
        law_assoc_both_ways(a, b, base, i, alt, (n - 1) as nat);
        let w = base[n - 1].surface;
        assert(a.learned_assoc@.contains_key((w, alt)) == b.learned_assoc@.contains_key((alt, w)));
        assert(a.learned_assoc@.contains_key((alt, w)) == b.learned_assoc@.contains_key((w, alt)));
    }
}

/// Learning the pair (candidate, `w`) with value `v`, in that order, raises
/// the candidate's association score by `v` for every other content word
/// of the sentence whose surface is `w`.
pub proof fn law_learned_pair_counts(
    a: ViterbiConverter,
    b: ViterbiConverter,
    base: Seq<WordSpec>,
    i: int,
    alt: Seq<char>,
    w: Seq<char>,
    v: i32,
    n: nat,
)
    requires
        alt != w,
        !a.learned_assoc@.contains_key((alt, w)),
        b.learned_assoc@ == a.learned_assoc@.insert((alt, w), v),
        n <= base.len(),
    ensures
        b.assoc_score(base, i, alt, n) == a.assoc_score(base, i, alt, n) + v * others_with_surface(base, i, w, n),
    decreases n,
{
    if n > 0 {
        law_learned_pair_counts(a, b, base, i, alt, w, v, (n - 1) as nat);
        let c = others_with_surface(base, i, w, (n - 1) as nat);
        let j = n - 1;
        let x = base[j].surface;
        let pa = a.assoc_score(base, i, alt, (n - 1) as nat);
        let pb = b.assoc_score(base, i, alt, (n - 1) as nat);
        assert(pb == pa + v * c);
        assert(b.assoc_val(x, alt) == a.assoc_val(x, alt));
        if j != i && is_content(base[j]) {
            if x == w {
                assert(b.assoc_val(alt, x) == v);
                assert(a.assoc_val(alt, x) == 0);
                assert(others_with_surface(base, i, w, n) == c + 1);
                assert(v * (c + 1) == v * c + v) by (nonlinear_arith);
                assert(b.assoc_score(base, i, alt, n) == pb + b.assoc_val(x, alt) + b.assoc_val(alt, x));
                assert(a.assoc_score(base, i, alt, n) == pa + a.assoc_val(x, alt) + a.assoc_val(alt, x));
            } else {
                assert(b.assoc_val(alt, x) == a.assoc_val(alt, x));
                assert(others_with_surface(base, i, w, n) == c);
            }
        } else {
            assert(others_with_surface(base, i, w, n) == c);
        }
    } else {
        assert(others_with_surface(base, i, w, 0) == 0);
        assert(v * 0 == 0) by (nonlinear_arith);
    }
}

} // verus!
