//! Building the lattice of a reading: dictionary words at each position,
//! unknown characters, katakana candidates and learned hiragana readings.

use vstd::prelude::*;
use crate::dictionary::{WordEntry, WordSpec, PosId, utf8_len, char_utf8_len, len_utf8, byte_len,
    prefix_hits, prefix_hits_bytes, entries_view, filed_by_reading, lemma_hits_facts, lemma_utf8_additive, lemma_utf8_take_step, lemma_utf8_prefix_le};
use crate::lattice::{Lattice, LatticeNode, NodeShape, shape, sat, sat_add, sat_sub};
use crate::scoring::{kanji_penalty_of, proper_noun_penalty_of, symbol_penalty_of, all_kana_reading,
    single_kanji_penalty, katakana_proper_noun_penalty, symbol_penalty, is_kana_reading_char};
use crate::text::{chars_of, to_katakana_seq, string_from_range, string_from_chars, hiragana_to_katakana, matches_at};
use crate::viterbi::ViterbiConverter;

verus! {

/// Cost at or below which a dictionary word inside a katakana span stops
/// the span.
pub const INTERIOR_STOP_MAX_COST: i16 = 4500;

pub open spec fn word_shape(start: nat, end: nat, e: WordSpec, cost: i32) -> NodeShape {
    NodeShape { start, end, entry: Some(e), left_id: e.left_id, right_id: e.right_id, word_cost: cost }
}

/// Byte offset of character `i` of `s`.
pub open spec fn offset(s: Seq<char>, i: int) -> nat {
    utf8_len(s.take(i))
}

pub open spec fn clamp_int(v: int, lo: int, hi: int) -> int {
    if v < lo {
        lo
    } else if v > hi {
        hi
    } else {
        v
    }
}

impl ViterbiConverter {
    /// Learned bonus of the (reading, surface) pair of `e`, 0 when none.
    pub open spec fn unigram_bonus(&self, e: WordSpec) -> i32 {
        if self.learned_unigram@.contains_key((e.reading, e.surface)) {
            self.learned_unigram@[(e.reading, e.surface)]
        } else {
            0
        }
    }

    /// Extra cost of a dictionary word in the lattice: one-kanji words,
    /// katakana proper nouns and symbols.
    pub open spec fn lattice_penalty(&self, e: WordSpec) -> int {
        kanji_penalty_of(e.surface, self.single_kanji_penalty) + proper_noun_penalty_of(e.surface, e.pos)
            + symbol_penalty_of(e.surface, e.pos)
    }

    /// Word cost of a dictionary word in the lattice.
    pub open spec fn lattice_cost(&self, e: WordSpec) -> i32 {
        sat(sat(e.cost + self.lattice_penalty(e)) - self.unigram_bonus(e))
    }

    /// Nodes of the dictionary words of `es`, all spanning `bp .. bp + len`.
    pub open spec fn entry_shapes(&self, bp: nat, len: nat, es: Seq<WordSpec>) -> Seq<NodeShape> {
        es.map_values(|e: WordSpec| word_shape(bp, bp + len, e, self.lattice_cost(e)))
    }

    /// Nodes of the dictionary hits `hits` (byte length and words) at `bp`.
    pub open spec fn hit_shapes(&self, bp: nat, hits: Seq<(nat, Seq<WordSpec>)>) -> Seq<NodeShape>
        decreases hits.len(),
    {
        if hits.len() == 0 {
            Seq::empty()
        } else {
            self.hit_shapes(bp, hits.drop_last()) + self.entry_shapes(bp, hits.last().0, hits.last().1)
        }
    }

    /// Cost of an unknown character, higher where a dictionary word starts.
    pub open spec fn unknown_cost_at(&self, hit: bool) -> i32 {
        if hit {
            sat(self.unknown_cost + 5000)
        } else {
            self.unknown_cost
        }
    }

    /// Node of the unknown character `c` at `bp`.
    pub open spec fn unknown_shape(&self, c: char, bp: nat, hit: bool) -> NodeShape {
        let cost = self.unknown_cost_at(hit);
        NodeShape {
            start: bp,
            end: bp + char_utf8_len(c),
            entry: Some(
                WordSpec {
                    surface: seq![c],
                    reading: seq![c],
                    left_id: self.unknown_id,
                    right_id: self.unknown_id,
                    cost: cost as i16,
                    pos: "未知語"@,
                },
            ),
            left_id: self.unknown_id,
            right_id: self.unknown_id,
            word_cost: cost,
        }
    }

    /// A dictionary word of cost at most the stop cost starts at `p`.
    pub open spec fn cheap_at(&self, s: Seq<char>, p: int) -> bool {
        let hs = prefix_hits(self.dictionary.words(), s.skip(p), (s.len() - p) as nat);
        exists|k: int, q: int|
            0 <= k < hs.len() && 0 <= q < hs[k].1.len() && #[trigger] hs[k].1[q].cost <= INTERIOR_STOP_MAX_COST
    }

    /// A cheap dictionary word starts strictly inside `i .. i + len`.
    pub open spec fn cheap_interior(&self, s: Seq<char>, i: int, len: int) -> bool {
        exists|p: int| i + 1 <= p < i + len && #[trigger] self.cheap_at(s, p)
    }

    /// Cost of a katakana node of `len` characters.
    pub open spec fn katakana_cost(&self, len: nat, pen: i32) -> i16 {
        clamp_int(self.katakana_base_cost + len * self.katakana_step_cost + pen, -0x8000, 0x7FFF) as i16
    }

    /// Katakana node for `s[i .. i + len]`.
    pub open spec fn kata_shape(&self, s: Seq<char>, i: int, len: nat, pen: i32) -> NodeShape {
        let reading = s.subrange(i, i + len);
        let c = self.katakana_cost(len, pen);
        NodeShape {
            start: offset(s, i),
            end: offset(s, i + len),
            entry: Some(
                WordSpec {
                    surface: to_katakana_seq(reading),
                    reading,
                    left_id: self.katakana_pos_id,
                    right_id: self.katakana_pos_id,
                    cost: c,
                    pos: "カタカナ"@,
                },
            ),
            left_id: self.katakana_pos_id,
            right_id: self.katakana_pos_id,
            word_cost: c as i32,
        }
    }

    /// Katakana nodes at `i` of `len` characters and longer: they stop at
    /// the longest allowed length, at the end of the input, before a
    /// character that is not hiragana, or before a span with a cheap
    /// dictionary word inside.
    pub open spec fn kata_shapes(&self, s: Seq<char>, i: int, pen: i32, len: nat) -> Seq<NodeShape>
        decreases s.len() + 1 - len,
    {
        if i < 0 || len > self.katakana_max_len || i + len > s.len() || !all_kana_reading(s.subrange(i, i + len))
            || self.cheap_interior(s, i, len as int) {
            Seq::empty()
        } else {
            seq![self.kata_shape(s, i, len, pen)] + self.kata_shapes(s, i, pen, len + 1)
        }
    }

    /// Nodes added at character `i`: its dictionary words and an unknown
    /// character (or the unknown character alone), then the katakana nodes.
    pub open spec fn at_shapes(&self, s: Seq<char>, i: int) -> Seq<NodeShape> {
        let bp = offset(s, i);
        let hits = prefix_hits_bytes(self.dictionary.words(), s.skip(i));
        let hit = hits.len() > 0;
        let words = if hit {
            self.hit_shapes(bp, hits) + seq![self.unknown_shape(s[i], bp, true)]
        } else {
            seq![self.unknown_shape(s[i], bp, false)]
        };
        words + if self.enable_katakana_fallback {
            self.kata_shapes(s, i, if hit { self.katakana_dict_start_penalty } else { 0 }, self.katakana_min_len as nat)
        } else {
            Seq::empty()
        }
    }

    /// Nodes added at characters `0 .. n`.
    pub open spec fn pos_shapes(&self, s: Seq<char>, n: nat) -> Seq<NodeShape>
        decreases n,
    {
        if n == 0 {
            Seq::empty()
        } else {
            self.pos_shapes(s, (n - 1) as nat) + self.at_shapes(s, n - 1)
        }
    }

    /// Cost of a learned hiragana node with bonus `b`.
    pub open spec fn hira_cost(b: i32) -> i16 {
        clamp_int(5000 - b, -30000, 0x7FFF) as i16
    }

    /// Hiragana node for the reading `r` at character `q`.
    pub open spec fn hira_shape(&self, s: Seq<char>, q: int, r: Seq<char>, b: i32) -> NodeShape {
        let c = Self::hira_cost(b);
        NodeShape {
            start: offset(s, q),
            end: offset(s, q + r.len()),
            entry: Some(
                WordSpec {
                    surface: r,
                    reading: r,
                    left_id: self.katakana_pos_id,
                    right_id: self.katakana_pos_id,
                    cost: c,
                    pos: "名詞-一般-*-*"@,
                },
            ),
            left_id: self.katakana_pos_id,
            right_id: self.katakana_pos_id,
            word_cost: c as i32,
        }
    }

    /// Hiragana nodes for each occurrence of `r` at or after character `q`.
    pub open spec fn occ_shapes(&self, s: Seq<char>, r: Seq<char>, b: i32, q: nat) -> Seq<NodeShape>
        decreases s.len() + 1 - q,
    {
        if q + r.len() > s.len() {
            Seq::empty()
        } else {
            (if s.subrange(q as int, (q + r.len()) as int) == r {
                seq![self.hira_shape(s, q as int, r, b)]
            } else {
                Seq::empty()
            }) + self.occ_shapes(s, r, b, q + 1)
        }
    }

    /// Hiragana nodes of the learned readings `es`, in table order.
    pub open spec fn hira_shapes(&self, s: Seq<char>, es: Seq<(Seq<char>, i32)>) -> Seq<NodeShape>
        decreases es.len(),
    {
        if es.len() == 0 {
            Seq::empty()
        } else {
            self.hira_shapes(s, es.drop_last()) + if es.last().0.len() == 0 {
                Seq::empty()
            } else {
                self.occ_shapes(s, es.last().0, es.last().1, 0)
            }
        }
    }

    /// The nodes of the lattice of `s`, in index order: begin, end, the
    /// nodes of each character, then the learned hiragana nodes.
    pub open spec fn spec_shapes(&self, s: Seq<char>) -> Seq<NodeShape> {
        seq![
            NodeShape { start: 0, end: 0, entry: None, left_id: self.dictionary.bos_id, right_id: self.dictionary.bos_id, word_cost: 0 },
            NodeShape { start: utf8_len(s), end: utf8_len(s), entry: None, left_id: self.dictionary.eos_id, right_id: self.dictionary.eos_id, word_cost: 0 },
        ] + self.pos_shapes(s, s.len()) + self.hira_shapes(s, self.learned_hiragana.seq())
    }

    /// `l` is the lattice of `s`, as built and not yet searched.
    pub open spec fn lattice_of(&self, s: Seq<char>, l: Lattice) -> bool {
        &&& l.wf()
        &&& l.fresh()
        &&& l.ordered()
        &&& l.input@ == s
        &&& l.bos_index == 0
        &&& l.eos_index == 1
        &&& l.shapes() == self.spec_shapes(s)
    }
}

pub proof fn lemma_utf8_ge_len(s: Seq<char>)
    ensures
        utf8_len(s) >= s.len(),
    decreases s.len(),
{
    if s.len() > 0 {
        lemma_utf8_ge_len(s.drop_first());
    }
}

/// Offsets grow strictly with the character index.
pub(crate) proof fn lemma_offset_lt(s: Seq<char>, a: int, b: int)
    requires
        0 <= a < b <= s.len(),
    ensures
        offset(s, a) < offset(s, b),
        offset(s, b) <= utf8_len(s),
{
    assert(s.take(b) =~= s.take(a) + s.subrange(a, b));
    lemma_utf8_additive(s.take(a), s.subrange(a, b));
    lemma_utf8_ge_len(s.subrange(a, b));
    lemma_utf8_prefix_le(s, b);
}

/// The bytes after character `i` fit where the whole text fits.
proof fn lemma_skip_bytes(s: Seq<char>, i: int, l: int)
    requires
        0 <= i <= s.len(),
        0 <= l <= s.len() - i,
    ensures
        offset(s, i) + utf8_len(s.skip(i).take(l)) == offset(s, i + l),
        utf8_len(s.skip(i)) <= utf8_len(s),
{
    assert(s.take(i + l) =~= s.take(i) + s.skip(i).take(l));
    lemma_utf8_additive(s.take(i), s.skip(i).take(l));
    assert(s =~= s.take(i) + s.skip(i));
    lemma_utf8_additive(s.take(i), s.skip(i));
}

/// Every dictionary hit is between 1 and `upto` characters long.
proof fn lemma_hit_lengths(m: Map<Seq<char>, Seq<WordSpec>>, t: Seq<char>, upto: nat)
    ensures
        forall|k: int| 0 <= k < prefix_hits(m, t, upto).len() ==> 1 <= #[trigger] prefix_hits(m, t, upto)[k].0 <= upto,
    decreases upto,
{
    if upto > 0 {
        lemma_hit_lengths(m, t, (upto - 1) as nat);
        let prev = prefix_hits(m, t, (upto - 1) as nat);
        assert forall|k: int| 0 <= k < prefix_hits(m, t, upto).len() implies 1 <= #[trigger] prefix_hits(m, t, upto)[k].0 <= upto by {
            if k < prev.len() {
                assert(prefix_hits(m, t, upto)[k] == prev[k]);
            }
        }
    }
}

proof fn lemma_shapes_push(a: Lattice, b: Lattice)
    requires
        b.nodes@.len() == a.nodes@.len() + 1,
        forall|i: int| 0 <= i < a.nodes@.len() ==> #[trigger] b.node(i) == a.node(i),
    ensures
        b.shapes() == a.shapes().push(shape(b.node(a.nodes@.len() as int))),
{
    assert(b.shapes() =~= a.shapes().push(shape(b.node(a.nodes@.len() as int)))) by {
        assert forall|i: int| 0 <= i < a.nodes@.len() implies b.shapes()[i] == a.shapes()[i] by {
            assert(b.node(i) == a.node(i));
        }
    }
}

fn sat_i64(v: i64) -> (r: i32)
    ensures
        r == sat(v as int),
{
    if v > 0x7FFF_FFFF {
        i32::MAX
    } else if v < -0x8000_0000 {
        i32::MIN
    } else {
        v as i32
    }
}

/// Offsets of every character boundary of `chars`.
pub(crate) fn offsets_of(chars: &Vec<char>) -> (r: Vec<usize>)
    requires
        utf8_len(chars@) <= usize::MAX,
    ensures
        r@.len() == chars@.len() + 1,
        forall|k: int| 0 <= k <= chars@.len() ==> #[trigger] r@[k] == offset(chars@, k),
{
    let mut r: Vec<usize> = Vec::new();
    let mut bp: usize = 0;
    let mut i: usize = 0;
    assert(chars@.take(0) =~= Seq::<char>::empty());
    while i < chars.len()
        invariant
            i <= chars@.len(),
            utf8_len(chars@) <= usize::MAX,
            r@.len() == i,
            bp == offset(chars@, i as int),
            forall|k: int| 0 <= k < i ==> #[trigger] r@[k] == offset(chars@, k),
        decreases chars@.len() - i,
    {
        r.push(bp);
        proof {
            lemma_utf8_take_step(chars@, i as int);
            lemma_utf8_prefix_le(chars@, i + 1);
        }
        bp = bp + len_utf8(chars[i]);
        i += 1;
    }
    r.push(bp);
    r
}

impl ViterbiConverter {
    /// Word cost of a dictionary word in the lattice.
    fn lattice_word_cost(&self, e: &WordEntry) -> (r: i32)
        ensures
            r == self.lattice_cost(e@),
    {
        let pen = single_kanji_penalty(e.surface.as_str(), self.single_kanji_penalty) as i64
            + katakana_proper_noun_penalty(e.surface.as_str(), e.pos.as_str()) as i64
            + symbol_penalty(e.surface.as_str(), e.pos.as_str()) as i64;
        let r = chars_of(e.reading.as_str());
        let s = chars_of(e.surface.as_str());
        let bonus = match self.learned_unigram.get_chars(r.as_slice(), s.as_slice()) {
            Some(b) => b,
            None => 0,
        };
        let c1 = sat_i64(e.cost as i64 + pen);
        sat_sub(c1, bonus)
    }

    /// Whether a dictionary word of cost at most the stop cost starts at
    /// character `p`.
    fn cheap_word_at(&self, chars: &Vec<char>, p: usize) -> (r: bool)
        requires
            self.wf(),
            p <= chars@.len(),
            utf8_len(chars@) <= usize::MAX,
        ensures
            r == self.cheap_at(chars@, p as int),
    {
        proof {
            lemma_skip_bytes(chars@, p as int, 0);
        }
        let hits = self.dictionary.trie.prefix_walk(chars.as_slice(), p);
        let ghost hs = prefix_hits(self.dictionary.words(), chars@.skip(p as int), (chars@.len() - p) as nat);
        assert(hs == hits@.map_values(|h: (usize, usize, &Vec<WordEntry>)| (h.0 as nat, entries_view(h.2@))));
        let mut k: usize = 0;
        while k < hits.len()
            invariant
                k <= hits@.len(),
                hs == prefix_hits(self.dictionary.words(), chars@.skip(p as int), (chars@.len() - p) as nat),
                hs.len() == hits@.len(),
                forall|j: int| 0 <= j < hits@.len() ==> #[trigger] hs[j].1 == entries_view(hits@[j].2@),
                forall|j: int, q: int| 0 <= j < k && 0 <= q < hs[j].1.len() ==> #[trigger] hs[j].1[q].cost > INTERIOR_STOP_MAX_COST,
            decreases hits@.len() - k,
        {
            let es = hits[k].2;
            let mut q: usize = 0;
            while q < es.len()
                invariant
                    k < hits@.len(),
                    hs == prefix_hits(self.dictionary.words(), chars@.skip(p as int), (chars@.len() - p) as nat),
                    hs.len() == hits@.len(),
                    es == hits@[k as int].2,
                    q <= es@.len(),
                    hs[k as int].1 == entries_view(es@),
                    forall|j: int| 0 <= j < q ==> #[trigger] hs[k as int].1[j].cost > INTERIOR_STOP_MAX_COST,
                decreases es@.len() - q,
            {
                if es[q].cost <= INTERIOR_STOP_MAX_COST {
                    assert(hs[k as int].1[q as int].cost <= INTERIOR_STOP_MAX_COST);
                    return true;
                }
                q += 1;
            }
            k += 1;
        }
        false
    }

    /// Whether `chars[from .. to]` is all hiragana.
    fn kana_span(chars: &Vec<char>, from: usize, to: usize) -> (r: bool)
        requires
            from <= to <= chars@.len(),
        ensures
            r == all_kana_reading(chars@.subrange(from as int, to as int)),
    {
        let mut i: usize = from;
        while i < to
            invariant
                from <= i <= to <= chars@.len(),
                forall|j: int| from <= j < i ==> is_kana_reading_char(#[trigger] chars@[j]),
            decreases to - i,
        {
            let u = chars[i] as u32;
            if !((0x3041 <= u && u <= 0x3096) || chars[i] == 'ー') {
                assert(!is_kana_reading_char(chars@.subrange(from as int, to as int)[i - from]));
                return false;
            }
            i += 1;
        }
        assert forall|j: int| 0 <= j < to - from implies is_kana_reading_char(#[trigger] chars@.subrange(from as int, to as int)[j]) by {
            assert(chars@.subrange(from as int, to as int)[j] == chars@[from + j]);
        }
        true
    }
}


impl ViterbiConverter {
    /// The lattice `l` is ready to receive nodes for `chars`, whose
    /// character offsets are `bps`.
    pub open spec fn ready(l: Lattice, chars: Seq<char>, bps: Seq<usize>) -> bool {
        &&& l.wf()
        &&& l.fresh()
        &&& l.ordered()
        &&& l.input@ == chars
        &&& l.bos_index == 0
        &&& l.eos_index == 1
        &&& utf8_len(chars) <= usize::MAX
        &&& bps.len() == chars.len() + 1
        &&& forall|k: int| 0 <= k <= chars.len() ==> #[trigger] bps[k] == offset(chars, k)
    }

    /// Adds the dictionary words that start at character `i`; tells whether
    /// there was any.
    fn add_dict_nodes(&self, lattice: &mut Lattice, chars: &Vec<char>, bps: &Vec<usize>, i: usize) -> (hit: bool)
        requires
            self.wf(),
            Self::ready(*old(lattice), chars@, bps@),
            i < chars@.len(),
        ensures
            Self::ready(*final(lattice), chars@, bps@),
            hit == (prefix_hits_bytes(self.dictionary.words(), chars@.skip(i as int)).len() > 0),
            final(lattice).shapes() == old(lattice).shapes() + if hit {
                self.hit_shapes(offset(chars@, i as int), prefix_hits_bytes(self.dictionary.words(), chars@.skip(i as int)))
            } else {
                Seq::empty()
            },
    {
        let ghost s = chars@;
        let ghost base = lattice.shapes();
        let ghost hb = prefix_hits_bytes(self.dictionary.words(), s.skip(i as int));
        let ghost ph = prefix_hits(self.dictionary.words(), s.skip(i as int), (s.len() - i) as nat);
        proof {
            lemma_skip_bytes(s, i as int, 0);
            lemma_hit_lengths(self.dictionary.words(), s.skip(i as int), (s.len() - i) as nat);
        }
        let hits = self.dictionary.trie.prefix_walk(chars.as_slice(), i);
        let bp = bps[i];
        proof {
            assert(s.skip(i as int).len() == s.len() - i);
            assert(ph == hits@.map_values(|h: (usize, usize, &Vec<WordEntry>)| (h.0 as nat, entries_view(h.2@))));
            assert forall|k: int| 0 <= k < hits@.len() implies #[trigger] hb[k] == (hits@[k].1 as nat, entries_view(hits@[k].2@))
                && 1 <= hits@[k].0 <= s.len() - i && bp + hits@[k].1 == offset(s, i + hits@[k].0) by {
                assert(ph[k] == (hits@[k].0 as nat, entries_view(hits@[k].2@)));
                assert(1 <= ph[k].0 <= s.len() - i);
                lemma_skip_bytes(s, i as int, hits@[k].0 as int);
            }
        }
        let mut k: usize = 0;
        while k < hits.len()
            invariant
                self.wf(),
                Self::ready(*lattice, s, bps@),
                s == chars@,
                i < s.len(),
                bp == offset(s, i as int),
                hb.len() == hits@.len(),
                k <= hits@.len(),
                forall|j: int| 0 <= j < hits@.len() ==> #[trigger] hb[j] == (hits@[j].1 as nat, entries_view(hits@[j].2@))
                    && 1 <= hits@[j].0 <= s.len() - i && bp + hits@[j].1 == offset(s, i + hits@[j].0),
                lattice.shapes() == base + self.hit_shapes(bp as nat, hb.take(k as int)),
            decreases hits@.len() - k,
        {
            let es = hits[k].2;
            let blen = hits[k].1;
            let ghost mid = lattice.shapes();
            proof {
                assert(hb[k as int] == (hits@[k as int].1 as nat, entries_view(hits@[k as int].2@)));
                lemma_offset_lt(s, i as int, i + hits@[k as int].0);
            }
            let mut q: usize = 0;
            while q < es.len()
                invariant
                    self.wf(),
                    Self::ready(*lattice, s, bps@),
                    s == chars@,
                    bp < bp + blen <= utf8_len(s),
                    q <= es@.len(),
                    lattice.shapes() == mid + self.entry_shapes(bp as nat, blen as nat, entries_view(es@).take(q as int)),
                decreases es@.len() - q,
            {
                let e = &es[q];
                let cost = self.lattice_word_cost(e);
                let mut node = LatticeNode::word(bp, bp + blen, e.clone());
                node.word_cost = cost;
                let ghost before = *lattice;
                lattice.add_node(node);
                proof {
                    lemma_shapes_push(before, *lattice);
                    let v = entries_view(es@);
                    assert(v.take(q + 1) =~= v.take(q as int).push(v[q as int]));
                    assert(self.entry_shapes(bp as nat, blen as nat, v.take(q + 1)) =~= self.entry_shapes(bp as nat, blen as nat, v.take(q as int)).push(word_shape(bp as nat, (bp + blen) as nat, v[q as int], self.lattice_cost(v[q as int]))));
                    assert(lattice.shapes() =~= mid + self.entry_shapes(bp as nat, blen as nat, v.take(q + 1)));
                }
                q += 1;
            }
            proof {
                assert(entries_view(es@).take(es@.len() as int) =~= entries_view(es@));
                assert(hb.take(k + 1).drop_last() =~= hb.take(k as int));
                assert(hb.take(k + 1).last() == hb[k as int]);
                assert(lattice.shapes() =~= base + self.hit_shapes(bp as nat, hb.take(k + 1)));
            }
            k += 1;
        }
        proof {
            assert(hb.take(hb.len() as int) =~= hb);
            if hb.len() == 0 {
                assert(lattice.shapes() =~= base);
            }
        }
        hits.len() > 0
    }

    /// Adds the katakana nodes that start at character `start`.
    fn add_katakana_nodes(&self, lattice: &mut Lattice, chars: &Vec<char>, bps: &Vec<usize>, start: usize, start_penalty: i32)
        requires
            self.wf(),
            Self::ready(*old(lattice), chars@, bps@),
            start < chars@.len(),
        ensures
            Self::ready(*final(lattice), chars@, bps@),
            final(lattice).shapes() == old(lattice).shapes() + self.kata_shapes(chars@, start as int, start_penalty, self.katakana_min_len as nat),
    {
        let ghost s = chars@;
        let ghost base = lattice.shapes();
        let ghost all = self.kata_shapes(s, start as int, start_penalty, self.katakana_min_len as nat);
        let n = chars.len();
        let slots = lattice.nodes_starting_at.len();
        proof {
            lemma_utf8_ge_len(s);
            assert(slots == utf8_len(s) + 1);
        }
        let mut len: usize = self.katakana_min_len;
        let mut p: usize = start + 1;
        let mut cheap = false;
        assert(base + all =~= lattice.shapes() + self.kata_shapes(s, start as int, start_penalty, len as nat));
        loop
            invariant
                self.wf(),
                Self::ready(*lattice, s, bps@),
                s == chars@,
                n == s.len(),
                n < usize::MAX,
                start < n,
                1 <= len,
                start + 1 <= p <= start + len,
                cheap == (exists|q: int| start + 1 <= q < p && #[trigger] self.cheap_at(s, q)),
                base + all == lattice.shapes() + self.kata_shapes(s, start as int, start_penalty, len as nat),
            ensures
                Self::ready(*lattice, s, bps@),
                base + all == lattice.shapes(),
            decreases n + 1 - len,
        {
            if len > self.katakana_max_len || len > n - start {
                break;
            }
            if !Self::kana_span(chars, start, start + len) {
                break;
            }
            while p < start + len
                invariant
                    self.wf(),
                    s == chars@,
                    n == s.len(),
                    start + len <= n,
                    start + 1 <= p <= start + len,
                    utf8_len(s) <= usize::MAX,
                    cheap == (exists|q: int| start + 1 <= q < p && #[trigger] self.cheap_at(s, q)),
                decreases start + len - p,
            {
                if self.cheap_word_at(chars, p) {
                    cheap = true;
                }
                p += 1;
            }
            if cheap {
                break;
            }
            let ghost tail = self.kata_shapes(s, start as int, start_penalty, (len + 1) as nat);
            assert(self.kata_shapes(s, start as int, start_penalty, len as nat) == seq![self.kata_shape(s, start as int, len as nat, start_penalty)] + tail);
            let reading = string_from_range(chars.as_slice(), start, start + len);
            let surface = hiragana_to_katakana(reading.as_str());
            let lm: i128 = len as i128;
            let st: i128 = self.katakana_step_cost as i128;
            assert(-0x1_0000_0000_0000_0000_0000_0000 <= lm * st <= 0x1_0000_0000_0000_0000_0000_0000) by (nonlinear_arith)
                requires
                    0 <= lm <= 0xFFFF_FFFF_FFFF_FFFF,
                    -0x8000_0000 <= st <= 0x7FFF_FFFF,
            ;
            let c: i128 = self.katakana_base_cost as i128 + lm * st + start_penalty as i128;
            let c16: i16 = if c < -0x8000 {
                -0x8000
            } else if c > 0x7FFF {
                0x7FFF
            } else {
                c as i16
            };
            let entry = WordEntry {
                surface,
                reading,
                left_id: self.katakana_pos_id,
                right_id: self.katakana_pos_id,
                cost: c16,
                pos: "カタカナ".to_owned(),
            };
            proof {
                lemma_offset_lt(s, start as int, start + len);
            }
            let ghost before = lattice.shapes();
            let ghost bl = *lattice;
            let ghost ev = entry@;
            assert(ev.cost == self.katakana_cost(len as nat, start_penalty));
            assert(ev.reading == s.subrange(start as int, start + len));
            lattice.add_word(bps[start], bps[start + len], entry);
            proof {
                lemma_shapes_push(bl, *lattice);
                assert(shape(lattice.node(bl.nodes@.len() as int)) == self.kata_shape(s, start as int, len as nat, start_penalty));
                assert(lattice.shapes() =~= before.push(self.kata_shape(s, start as int, len as nat, start_penalty)));
                assert(base + all =~= lattice.shapes() + tail);
            }
            len += 1;
        }
    }

    /// Adds a hiragana node for each occurrence of each learned hiragana
    /// reading.
    fn add_learned_hiragana_nodes(&self, lattice: &mut Lattice, chars: &Vec<char>, bps: &Vec<usize>)
        requires
            self.wf(),
            Self::ready(*old(lattice), chars@, bps@),
        ensures
            Self::ready(*final(lattice), chars@, bps@),
            final(lattice).shapes() == old(lattice).shapes() + self.hira_shapes(chars@, self.learned_hiragana.seq()),
    {
        let ghost s = chars@;
        let ghost base = lattice.shapes();
        let ghost es = self.learned_hiragana.seq();
        let n = chars.len();
        let cnt = self.learned_hiragana.len();
        let mut k: usize = 0;
        assert(es.take(0) =~= Seq::<(Seq<char>, i32)>::empty());
        while k < cnt
            invariant
                self.wf(),
                Self::ready(*lattice, s, bps@),
                s == chars@,
                n == s.len(),
                es == self.learned_hiragana.seq(),
                cnt == es.len(),
                k <= cnt,
                lattice.shapes() == base + self.hira_shapes(s, es.take(k as int)),
            decreases cnt - k,
        {
            let (r, b) = self.learned_hiragana.entry_at(k);
            let ghost mid = lattice.shapes();
            proof {
                assert(es.take(k + 1).drop_last() =~= es.take(k as int));
                assert(es.take(k + 1).last() == es[k as int]);
            }
            if r.len() > 0 {
                let ghost occ = self.occ_shapes(s, r@, b, 0);
                let w: i64 = 5000 - b as i64;
                let cost: i16 = if w < -30000 {
                    -30000
                } else if w > 0x7FFF {
                    0x7FFF
                } else {
                    w as i16
                };
                let mut q: usize = 0;
                while r.len() <= n && q <= n - r.len()
                    invariant
                        self.wf(),
                        Self::ready(*lattice, s, bps@),
                        s == chars@,
                        n == s.len(),
                        r@.len() > 0,
                        cost == Self::hira_cost(b),
                        q <= n + 1,
                        mid + occ == lattice.shapes() + self.occ_shapes(s, r@, b, q as nat),
                    decreases n + 1 - q,
                {
                    let ghost tail = self.occ_shapes(s, r@, b, (q + 1) as nat);
                    if matches_at(r.as_slice(), chars.as_slice(), q) {
                        proof {
                            lemma_offset_lt(s, q as int, q + r@.len());
                        }
                        let entry = WordEntry {
                            surface: string_from_chars(r.as_slice()),
                            reading: string_from_chars(r.as_slice()),
                            left_id: self.katakana_pos_id,
                            right_id: self.katakana_pos_id,
                            cost,
                            pos: "名詞-一般-*-*".to_owned(),
                        };
                        let ghost before = lattice.shapes();
                        let ghost bl = *lattice;
                        lattice.add_word(bps[q], bps[q + r.len()], entry);
                        proof {
                            lemma_shapes_push(bl, *lattice);
                            assert(shape(lattice.node(bl.nodes@.len() as int)) == self.hira_shape(s, q as int, r@, b));
                            assert(lattice.shapes() =~= before.push(self.hira_shape(s, q as int, r@, b)));
                            assert(self.occ_shapes(s, r@, b, q as nat) =~= seq![self.hira_shape(s, q as int, r@, b)] + tail);
                            assert(mid + occ =~= lattice.shapes() + tail);
                        }
                    } else {
                        proof {
                            assert(self.occ_shapes(s, r@, b, q as nat) =~= tail);
                        }
                    }
                    q += 1;
                }
                proof {
                    assert(self.occ_shapes(s, r@, b, q as nat) =~= Seq::<NodeShape>::empty());
                    assert(lattice.shapes() =~= base + self.hira_shapes(s, es.take(k + 1)));
                }
            } else {
                proof {
                    assert(lattice.shapes() =~= base + self.hira_shapes(s, es.take(k + 1)));
                }
            }
            k += 1;
        }
        assert(es.take(cnt as int) =~= es);
    }

    /// Builds the lattice of `input`: at each character its dictionary
    /// words and an unknown character, katakana candidates where enabled,
    /// and learned hiragana readings.
    pub fn build_lattice(&self, input: &str) -> (r: Lattice)
        requires
            self.wf(),
        ensures
            self.lattice_of(input@, r),
    {
        let mut lattice = Lattice::new(input, self.dictionary.bos_id, self.dictionary.eos_id);
        let chars = chars_of(input);
        let _total = byte_len(input);
        let bps = offsets_of(&chars);
        let ghost s = chars@;
        let ghost head = lattice.shapes();
        proof {
            assert(head =~= seq![
                NodeShape { start: 0, end: 0, entry: None, left_id: self.dictionary.bos_id, right_id: self.dictionary.bos_id, word_cost: 0 },
                NodeShape { start: utf8_len(s), end: utf8_len(s), entry: None, left_id: self.dictionary.eos_id, right_id: self.dictionary.eos_id, word_cost: 0 },
            ]);
            assert(head + self.pos_shapes(s, 0) =~= head);
        }
        let n = chars.len();
        let mut i: usize = 0;
        while i < n
            invariant
                self.wf(),
                Self::ready(lattice, s, bps@),
                s == chars@,
                n == s.len(),
                i <= n,
                lattice.shapes() == head + self.pos_shapes(s, i as nat),
            decreases n - i,
        {
            let ghost before = lattice.shapes();
            let hit = self.add_dict_nodes(&mut lattice, &chars, &bps, i);
            let bp = bps[i];
            let ch = chars[i];
            proof {
                lemma_utf8_take_step(s, i as int);
                lemma_offset_lt(s, i as int, i + 1);
            }
            let cost = if hit {
                sat_add(self.unknown_cost, 5000)
            } else {
                self.unknown_cost
            };
            let surface = string_from_range(chars.as_slice(), i, i + 1);
            let ghost mid = lattice.shapes();
            let ghost bl = lattice;
            assert(s.subrange(i as int, i + 1) =~= seq![ch]);
            assert(cost == self.unknown_cost_at(hit));
            lattice.add_unknown(bp, bp + len_utf8(ch), surface, self.unknown_id, cost);
            proof {
                lemma_shapes_push(bl, lattice);
                assert(shape(lattice.node(bl.nodes@.len() as int)) == self.unknown_shape(ch, bp as nat, hit));
                assert(lattice.shapes() =~= mid.push(self.unknown_shape(ch, bp as nat, hit)));
            }
            let ghost after_unknown = lattice.shapes();
            if self.enable_katakana_fallback {
                let pen = if hit {
                    self.katakana_dict_start_penalty
                } else {
                    0
                };
                self.add_katakana_nodes(&mut lattice, &chars, &bps, i, pen);
            }
            proof {
                assert(lattice.shapes() =~= before + self.at_shapes(s, i as int));
                assert(self.pos_shapes(s, (i + 1) as nat) == self.pos_shapes(s, i as nat) + self.at_shapes(s, i as int));
                assert(lattice.shapes() =~= head + self.pos_shapes(s, (i + 1) as nat));
            }
            i += 1;
        }
        self.add_learned_hiragana_nodes(&mut lattice, &chars, &bps);
        lattice
    }
}

/// `sh` is a node over the character `i` of `s` alone, read as that
/// character.
pub open spec fn char_node(sh: NodeShape, s: Seq<char>, i: int) -> bool {
    &&& sh.start == offset(s, i)
    &&& sh.end == offset(s, i + 1)
    &&& sh.entry matches Some(e) && e.reading == seq![s[i]]
}

/// Some node of `l` spans character `i` of `s` alone, read as that
/// character.
pub open spec fn has_char_node(l: Lattice, s: Seq<char>, i: int) -> bool {
    exists|k: int| 0 <= k < l.nodes@.len() && #[trigger] char_node(shape(l.node(k)), s, i)
}

proof fn lemma_pos_has_char(c: ViterbiConverter, s: Seq<char>, n: nat, i: int)
    requires
        0 <= i < n <= s.len(),
    ensures
        exists|k: int| 0 <= k < c.pos_shapes(s, n).len() && char_node(#[trigger] c.pos_shapes(s, n)[k], s, i),
    decreases n,
{
    let prev = c.pos_shapes(s, (n - 1) as nat);
    let at = c.at_shapes(s, n - 1);
    assert(c.pos_shapes(s, n) == prev + at);
    if i < n - 1 {
        lemma_pos_has_char(c, s, (n - 1) as nat, i);
        let k = choose|k: int| 0 <= k < prev.len() && char_node(#[trigger] prev[k], s, i);
        assert(c.pos_shapes(s, n)[k] == prev[k]);
    } else {
        let bp = offset(s, i);
        let hits = prefix_hits_bytes(c.dictionary.words(), s.skip(i));
        let hit = hits.len() > 0;
        let u = c.unknown_shape(s[i], bp, hit);
        lemma_utf8_take_step(s, i);
        assert(char_node(u, s, i));
        let words = if hit {
            c.hit_shapes(bp, hits) + seq![u]
        } else {
            seq![u]
        };
        let j = words.len() - 1;
        assert(words[j] == u);
        assert(at[j] == words[j]);
        assert(c.pos_shapes(s, n)[prev.len() + j] == at[j]);
    }
}

/// In the lattice of a reading, every character has a node of its own that
/// spans it alone and is read as that character, so the end node can always
/// be reached.
pub proof fn law_every_char_has_node(c: ViterbiConverter, s: Seq<char>, l: Lattice)
    requires
        c.lattice_of(s, l),
    ensures
        forall|i: int| 0 <= i < s.len() ==> #[trigger] has_char_node(l, s, i),
{
    assert forall|i: int| 0 <= i < s.len() implies #[trigger] has_char_node(l, s, i) by {
        lemma_pos_has_char(c, s, s.len(), i);
        let ps = c.pos_shapes(s, s.len());
        let k = choose|k: int| 0 <= k < ps.len() && char_node(#[trigger] ps[k], s, i);
        let sp = c.spec_shapes(s);
        let hs = c.hira_shapes(s, c.learned_hiragana.seq());
        let head = seq![
            NodeShape { start: 0, end: 0, entry: None, left_id: c.dictionary.bos_id, right_id: c.dictionary.bos_id, word_cost: 0 },
            NodeShape { start: utf8_len(s), end: utf8_len(s), entry: None, left_id: c.dictionary.eos_id, right_id: c.dictionary.eos_id, word_cost: 0 },
        ];
        assert(sp == head + ps + hs);
        assert((head + ps + hs)[k + 2] == ps[k]);
        assert(l.shapes() == sp);
        assert(l.shapes().len() == l.nodes@.len());
        assert(k + 2 < l.nodes@.len());
        assert(l.shapes()[k + 2] == shape(l.node(k + 2)));
        assert(char_node(shape(l.node(k + 2)), s, i));
    }
}


/// `sh` spans the characters `i .. j` of `s` (`i < j`) and is read as them.
pub open spec fn reads_span(sh: NodeShape, s: Seq<char>, i: int, j: int) -> bool {
    &&& 0 <= i < j <= s.len()
    &&& sh.start == offset(s, i)
    &&& sh.end == offset(s, j)
    &&& sh.entry matches Some(e) && e.reading == s.subrange(i, j)
}

/// `sh` spans some characters of `s` and is read as them.
pub open spec fn reads_input(sh: NodeShape, s: Seq<char>) -> bool {
    exists|i: int, j: int| #[trigger] reads_span(sh, s, i, j)
}

pub open spec fn all_read(xs: Seq<NodeShape>, s: Seq<char>) -> bool {
    forall|k: int| 0 <= k < xs.len() ==> #[trigger] reads_input(xs[k], s)
}

pub open spec fn readings_are(es: Seq<WordSpec>, r: Seq<char>) -> bool {
    forall|q: int| 0 <= q < es.len() ==> (#[trigger] es[q]).reading == r
}

/// A dictionary hit at character `i` of `s`: its byte length is that of some
/// non-empty span from `i`, and its words are read as that span.
pub open spec fn good_hit(h: (nat, Seq<WordSpec>), s: Seq<char>, i: int) -> bool {
    exists|a: int| 1 <= a && i + a <= s.len() && h.0 == utf8_len(s.subrange(i, i + a)) && #[trigger] readings_are(
        h.1,
        s.subrange(i, i + a),
    )
}

proof fn lemma_all_read_concat(a: Seq<NodeShape>, b: Seq<NodeShape>, s: Seq<char>)
    requires
        all_read(a, s),
        all_read(b, s),
    ensures
        all_read(a + b, s),
{
    assert forall|k: int| 0 <= k < (a + b).len() implies #[trigger] reads_input((a + b)[k], s) by {
        if k < a.len() {
            assert((a + b)[k] == a[k]);
        } else {
            assert((a + b)[k] == b[k - a.len()]);
        }
    }
}

proof fn lemma_one_read(x: NodeShape, s: Seq<char>, i: int, j: int)
    requires
        reads_span(x, s, i, j),
    ensures
        all_read(seq![x], s),
{
    assert(seq![x][0] == x);
}

proof fn lemma_offset_span(s: Seq<char>, i: int, j: int)
    requires
        0 <= i <= j <= s.len(),
    ensures
        offset(s, j) == offset(s, i) + utf8_len(s.subrange(i, j)),
{
    assert(s.take(j) =~= s.take(i) + s.subrange(i, j));
    lemma_utf8_additive(s.take(i), s.subrange(i, j));
}

proof fn lemma_hits_good(m: Map<Seq<char>, Seq<WordSpec>>, s: Seq<char>, i: int)
    requires
        filed_by_reading(m),
        0 <= i <= s.len(),
    ensures
        forall|k: int| 0 <= k < prefix_hits_bytes(m, s.skip(i)).len() ==> good_hit(
            #[trigger] prefix_hits_bytes(m, s.skip(i))[k],
            s,
            i,
        ),
{
    let t = s.skip(i);
    lemma_hits_facts(m, t, t.len());
    let ph = prefix_hits(m, t, t.len());
    assert forall|k: int| 0 <= k < prefix_hits_bytes(m, t).len() implies good_hit(
        #[trigger] prefix_hits_bytes(m, t)[k],
        s,
        i,
    ) by {
        let h = ph[k];
        let a = h.0 as int;
        assert(1 <= a <= t.len());
        assert(t.take(a) =~= s.subrange(i, i + a));
        assert(m.contains_key(t.take(a)));
        assert(readings_are(h.1, s.subrange(i, i + a)));
        let hb = prefix_hits_bytes(m, t)[k];
        assert(hb == (utf8_len(t.take(a)), h.1));
        assert(hb.0 == utf8_len(s.subrange(i, i + a)));
        assert(readings_are(hb.1, s.subrange(i, i + a)));
        assert(1 <= a && i + a <= s.len());
    }
}

proof fn lemma_unknown_reads(c: ViterbiConverter, s: Seq<char>, i: int, hit: bool)
    requires
        0 <= i < s.len(),
    ensures
        reads_span(c.unknown_shape(s[i], offset(s, i), hit), s, i, i + 1),
{
    lemma_utf8_take_step(s, i);
    assert(s.subrange(i, i + 1) =~= seq![s[i]]);
}

proof fn lemma_hit_shapes_read(c: ViterbiConverter, s: Seq<char>, i: int, hits: Seq<(nat, Seq<WordSpec>)>)
    requires
        0 <= i <= s.len(),
        forall|k: int| 0 <= k < hits.len() ==> good_hit(#[trigger] hits[k], s, i),
    ensures
        all_read(c.hit_shapes(offset(s, i), hits), s),
    decreases hits.len(),
{
    if hits.len() > 0 {
        let d = hits.drop_last();
        assert forall|k: int| 0 <= k < d.len() implies good_hit(#[trigger] d[k], s, i) by {
            assert(d[k] == hits[k]);
        }
        lemma_hit_shapes_read(c, s, i, d);
        let h = hits.last();
        assert(good_hit(hits[hits.len() - 1], s, i));
        let a = choose|a: int|
            1 <= a && i + a <= s.len() && h.0 == utf8_len(s.subrange(i, i + a)) && #[trigger] readings_are(
                h.1,
                s.subrange(i, i + a),
            );
        lemma_offset_span(s, i, i + a);
        let xs = c.entry_shapes(offset(s, i), h.0, h.1);
        assert forall|k: int| 0 <= k < xs.len() implies #[trigger] reads_input(xs[k], s) by {
            assert(h.1[k].reading == s.subrange(i, i + a));
            assert(reads_span(xs[k], s, i, i + a));
        }
        lemma_all_read_concat(c.hit_shapes(offset(s, i), d), xs, s);
    }
}

proof fn lemma_kata_read(c: ViterbiConverter, s: Seq<char>, i: int, pen: i32, len: nat)
    requires
        len >= 1,
    ensures
        all_read(c.kata_shapes(s, i, pen, len), s),
    decreases s.len() + 1 - len,
{
    if !(i < 0 || len > c.katakana_max_len || i + len > s.len() || !all_kana_reading(s.subrange(i, i + len))
        || c.cheap_interior(s, i, len as int)) {
        lemma_kata_read(c, s, i, pen, len + 1);
        let x = c.kata_shape(s, i, len, pen);
        assert(reads_span(x, s, i, i + len));
        lemma_one_read(x, s, i, i + len);
        lemma_all_read_concat(seq![x], c.kata_shapes(s, i, pen, len + 1), s);
    }
}

proof fn lemma_at_read(c: ViterbiConverter, s: Seq<char>, i: int)
    requires
        c.wf(),
        filed_by_reading(c.dictionary.words()),
        0 <= i < s.len(),
    ensures
        all_read(c.at_shapes(s, i), s),
{
    let bp = offset(s, i);
    let hits = prefix_hits_bytes(c.dictionary.words(), s.skip(i));
    let hit = hits.len() > 0;
    lemma_hits_good(c.dictionary.words(), s, i);
    lemma_hit_shapes_read(c, s, i, hits);
    lemma_unknown_reads(c, s, i, hit);
    let u = c.unknown_shape(s[i], bp, hit);
    lemma_one_read(u, s, i, i + 1);
    lemma_all_read_concat(c.hit_shapes(bp, hits), seq![u], s);
    let words = if hit {
        c.hit_shapes(bp, hits) + seq![u]
    } else {
        seq![u]
    };
    let pen = if hit { c.katakana_dict_start_penalty } else { 0 };
    lemma_kata_read(c, s, i, pen, c.katakana_min_len as nat);
    assert(all_read(Seq::<NodeShape>::empty(), s));
    let kata = if c.enable_katakana_fallback {
        c.kata_shapes(s, i, pen, c.katakana_min_len as nat)
    } else {
        Seq::empty()
    };
    lemma_all_read_concat(words, kata, s);
    assert(c.at_shapes(s, i) == words + kata);
}

proof fn lemma_pos_read(c: ViterbiConverter, s: Seq<char>, n: nat)
    requires
        c.wf(),
        filed_by_reading(c.dictionary.words()),
        n <= s.len(),
    ensures
        all_read(c.pos_shapes(s, n), s),
    decreases n,
{
    if n > 0 {
        lemma_pos_read(c, s, (n - 1) as nat);
        lemma_at_read(c, s, n - 1);
        lemma_all_read_concat(c.pos_shapes(s, (n - 1) as nat), c.at_shapes(s, n - 1), s);
    }
}

proof fn lemma_occ_read(c: ViterbiConverter, s: Seq<char>, r: Seq<char>, b: i32, q: nat)
    requires
        r.len() > 0,
    ensures
        all_read(c.occ_shapes(s, r, b, q), s),
    decreases s.len() + 1 - q,
{
    if q + r.len() <= s.len() {
        lemma_occ_read(c, s, r, b, q + 1);
        let rest = c.occ_shapes(s, r, b, q + 1);
        if s.subrange(q as int, (q + r.len()) as int) == r {
            let x = c.hira_shape(s, q as int, r, b);
            assert(reads_span(x, s, q as int, (q + r.len()) as int));
            lemma_one_read(x, s, q as int, (q + r.len()) as int);
            lemma_all_read_concat(seq![x], rest, s);
        } else {
            assert(Seq::<NodeShape>::empty() + rest =~= rest);
        }
    }
}

proof fn lemma_hira_read(c: ViterbiConverter, s: Seq<char>, es: Seq<(Seq<char>, i32)>)
    ensures
        all_read(c.hira_shapes(s, es), s),
    decreases es.len(),
{
    if es.len() > 0 {
        lemma_hira_read(c, s, es.drop_last());
        let prev = c.hira_shapes(s, es.drop_last());
        if es.last().0.len() == 0 {
            assert(prev + Seq::<NodeShape>::empty() =~= prev);
        } else {
            lemma_occ_read(c, s, es.last().0, es.last().1, 0);
            lemma_all_read_concat(prev, c.occ_shapes(s, es.last().0, es.last().1, 0), s);
        }
    }
}

/// In the lattice of a reading, every node but the two ends spans a
/// non-empty run of the reading's characters, starts and ends at their byte
/// offsets, and is read as exactly those characters, when every dictionary
/// word is filed under its own reading.
pub proof fn law_nodes_read_input(c: ViterbiConverter, s: Seq<char>, l: Lattice)
    requires
        c.wf(),
        filed_by_reading(c.dictionary.words()),
        c.lattice_of(s, l),
    ensures
        forall|k: int| 2 <= k < l.nodes@.len() ==> #[trigger] reads_input(shape(l.node(k)), s),
{
    let ps = c.pos_shapes(s, s.len());
    let hs = c.hira_shapes(s, c.learned_hiragana.seq());
    lemma_pos_read(c, s, s.len());
    lemma_hira_read(c, s, c.learned_hiragana.seq());
    lemma_all_read_concat(ps, hs, s);
    let head = seq![
        NodeShape { start: 0, end: 0, entry: None, left_id: c.dictionary.bos_id, right_id: c.dictionary.bos_id, word_cost: 0 },
        NodeShape { start: utf8_len(s), end: utf8_len(s), entry: None, left_id: c.dictionary.eos_id, right_id: c.dictionary.eos_id, word_cost: 0 },
    ];
    let sp = c.spec_shapes(s);
    assert(sp == head + (ps + hs));
    assert forall|k: int| 2 <= k < l.nodes@.len() implies #[trigger] reads_input(shape(l.node(k)), s) by {
        assert(l.shapes().len() == l.nodes@.len());
        assert(l.shapes()[k] == shape(l.node(k)));
        assert(sp[k] == (ps + hs)[k - 2]);
    }
}

} // verus!
