//! Conversion of a reading: the best path of its lattice, as words, as a
//! string and with its cost.

use vstd::prelude::*;
use crate::dictionary::{WordEntry, WordSpec, entries_view, utf8_len, byte_len};
use crate::lattice::Lattice;
use crate::viterbi::{ViterbiConverter, opt_words, opt_chain, best_total, best_words, lemma_solved_ranked,
    lemma_best_words_opt, lemma_same_graph, lemma_total_same, lemma_opt_same, is_path, path_cost, chain_words,
    law_best_total_is_minimal, law_best_chain_achieves, lemma_path_same};
use crate::lattice::i32_max;
use crate::text::{chars_of, push_char};
use crate::construct::lemma_utf8_ge_len;

verus! {

/// The surfaces of `ws`, one after another.
pub open spec fn join_surfaces(ws: Seq<WordSpec>) -> Seq<char>
    decreases ws.len(),
{
    if ws.len() == 0 {
        Seq::empty()
    } else {
        join_surfaces(ws.drop_last()) + ws.last().surface
    }
}

/// Concatenates the surfaces of the words.
pub fn concat_surfaces(entries: &Vec<WordEntry>) -> (r: String)
    ensures
        r@ == join_surfaces(entries_view(entries@)),
{
    let mut out = String::new();
    let mut k: usize = 0;
    while k < entries.len()
        invariant
            k <= entries@.len(),
            out@ == join_surfaces(entries_view(entries@).take(k as int)),
        decreases entries@.len() - k,
    {
        let cs = chars_of(entries[k].surface.as_str());
        let ghost before = out@;
        let mut i: usize = 0;
        while i < cs.len()
            invariant
                i <= cs@.len(),
                out@ == before + cs@.take(i as int),
            decreases cs@.len() - i,
        {
            push_char(&mut out, cs[i]);
            assert(cs@.take(i + 1) =~= cs@.take(i as int).push(cs@[i as int]));
            i += 1;
        }
        proof {
            let v = entries_view(entries@);
            assert(cs@.take(cs@.len() as int) =~= cs@);
            assert(v.take(k + 1).drop_last() =~= v.take(k as int));
            assert(v.take(k + 1).last() == entries@[k as int]@);
        }
        k += 1;
    }
    assert(entries_view(entries@).take(entries@.len() as int) =~= entries_view(entries@));
    out
}

impl ViterbiConverter {
    /// The lattice of `s` as `build_lattice` makes it.
    pub open spec fn spec_lattice(&self, s: Seq<char>) -> Lattice {
        choose|l: Lattice| self.lattice_of(s, l)
    }

    /// The words of the best conversion of `s` (none for an empty reading).
    pub open spec fn conversion(&self, s: Seq<char>) -> Seq<WordSpec> {
        if s.len() == 0 {
            Seq::empty()
        } else {
            opt_words(self.dictionary.matrix, self.learned_bigram@, self.spec_lattice(s))
        }
    }

    /// The cost of the best conversion of `s` (0 for an empty reading, the
    /// largest `i32` when the end cannot be reached).
    pub open spec fn conversion_cost(&self, s: Seq<char>) -> i32 {
        if s.len() == 0 {
            0
        } else {
            let l = self.spec_lattice(s);
            best_total(self.dictionary.matrix, self.learned_bigram@, l, l.eos_index as int)
        }
    }

    /// The best conversion of `hiragana` and its cost.
    pub fn convert_with_cost(&self, hiragana: &str) -> (r: (Vec<WordEntry>, i32))
        requires
            self.wf(),
        ensures
            entries_view(r.0@) == self.conversion(hiragana@),
            r.1 == self.conversion_cost(hiragana@),
    {
        let nbytes = byte_len(hiragana);
        proof {
            lemma_utf8_ge_len(hiragana@);
        }
        if nbytes == 0 {
            return (Vec::new(), 0);
        }
        let mut lattice = self.build_lattice(hiragana);
        let ghost orig = lattice;
        let ghost m = self.dictionary.matrix;
        let ghost big = self.learned_bigram@;
        self.find_best_path(&mut lattice);
        proof {
            lemma_solved_ranked(m, big, orig, lattice);
            lemma_best_words_opt(m, big, orig, lattice);
            let l = self.spec_lattice(hiragana@);
            assert(self.lattice_of(hiragana@, l));
            lemma_same_graph(orig, l);
            lemma_total_same(m, big, orig, l, orig.eos_index as int);
            lemma_opt_same(m, big, orig, l, orig.eos_index as int);
            assert(orig.eos_index < orig.nodes@.len());
        }
        let cost = lattice.nodes[lattice.eos_index].total_cost;
        let words = self.extract_result(&lattice);
        (words, cost)
    }

    /// The best conversion of `hiragana`, as words.
    pub fn convert(&self, hiragana: &str) -> (r: Vec<WordEntry>)
        requires
            self.wf(),
        ensures
            entries_view(r@) == self.conversion(hiragana@),
    {
        self.convert_with_cost(hiragana).0
    }

    /// The best conversion of `hiragana`, as a string.
    pub fn convert_to_string(&self, hiragana: &str) -> (r: String)
        requires
            self.wf(),
        ensures
            r@ == join_surfaces(self.conversion(hiragana@)),
    {
        let entries = self.convert(hiragana);
        concat_surfaces(&entries)
    }
}


/// No path from the begin node to the end node of the lattice of `s` costs
/// less than its conversion, as long as the path's cost stays below the
/// largest `i32` along the way.
pub proof fn law_conversion_is_cheapest(c: ViterbiConverter, s: Seq<char>, l: Lattice, p: Seq<int>)
    requires
        c.wf(),
        s.len() > 0,
        c.lattice_of(s, l),
        is_path(l, p),
        p.last() == l.eos_index,
        forall|q: int| 1 <= q <= p.len() ==> #[trigger] path_cost(c.dictionary.matrix, c.learned_bigram@, l, p.take(q)) < i32_max(),
    ensures
        c.conversion_cost(s) <= path_cost(c.dictionary.matrix, c.learned_bigram@, l, p),
{
    let m = c.dictionary.matrix;
    let big = c.learned_bigram@;
    let sl = c.spec_lattice(s);
    assert(c.lattice_of(s, sl));
    lemma_same_graph(l, sl);
    law_best_total_is_minimal(m, big, l, p);
    lemma_total_same(m, big, l, sl, l.eos_index as int);
}

/// When the end is reachable, the conversion of `s` is the words of a path
/// from the begin node to the end node of its lattice, and that path costs
/// the conversion cost.
pub proof fn law_conversion_is_a_path(c: ViterbiConverter, s: Seq<char>, l: Lattice)
    requires
        c.wf(),
        s.len() > 0,
        c.lattice_of(s, l),
        c.conversion_cost(s) < i32_max(),
    ensures
        exists|p: Seq<int>|
            is_path(l, p) && p.last() == l.eos_index && #[trigger] chain_words(l, p) == c.conversion(s)
                && path_cost(c.dictionary.matrix, c.learned_bigram@, l, p) == c.conversion_cost(s),
{
    let m = c.dictionary.matrix;
    let big = c.learned_bigram@;
    let sl = c.spec_lattice(s);
    assert(c.lattice_of(s, sl));
    lemma_same_graph(sl, l);
    let e = sl.eos_index as int;
    law_best_chain_achieves(m, big, sl, e);
    let p = opt_chain(m, big, sl, e);
    lemma_path_same(m, big, sl, l, p);
}
} // verus!
