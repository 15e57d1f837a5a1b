//! Live conversion state: a typing buffer converted after every change,
//! and a converter that remembers its last input and result.

use vstd::prelude::*;
use crate::dictionary::{WordEntry, WordSpec, entries_view, utf8_len};
use crate::lattice::Lattice;
use crate::viterbi::{ViterbiConverter, lemma_solved_ranked, lemma_best_words_opt, lemma_same_graph, lemma_opt_same};
use crate::convert::{join_surfaces, concat_surfaces};
use crate::construct::{offsets_of, offset};
use crate::text::{chars_of, chars_eq, string_from_range, string_from_chars};
use crate::fuzzy::append_chars;

verus! {

/// The text shown for the buffer `s`: nothing for an empty buffer, else
/// its conversion.
pub open spec fn live_text(c: ViterbiConverter, s: Seq<char>) -> Seq<char> {
    if s.len() == 0 {
        Seq::empty()
    } else {
        join_surfaces(c.conversion(s))
    }
}

/// Live conversion of a typing buffer.
pub struct LiveConversionContext {
    converter: ViterbiConverter,
    input_buffer: String,
    committed_text: String,
    current_conversion: String,
}

impl LiveConversionContext {
    /// The converter.
    pub closed spec fn engine(&self) -> ViterbiConverter {
        self.converter
    }

    /// The hiragana typed so far.
    pub closed spec fn input(&self) -> Seq<char> {
        self.input_buffer@
    }

    /// The text committed so far.
    pub closed spec fn committed(&self) -> Seq<char> {
        self.committed_text@
    }

    /// The conversion shown for the buffer.
    pub closed spec fn shown(&self) -> Seq<char> {
        self.current_conversion@
    }

    /// The converter is well formed and the shown text is the conversion
    /// of the buffer.
    pub closed spec fn wf(&self) -> bool {
        self.converter.wf() && self.current_conversion@ == live_text(self.converter, self.input_buffer@)
    }

    /// In a well-formed context the shown text is the live text of the
    /// buffer, and the converter is well formed.
    pub proof fn lemma_shown(&self)
        requires
            self.wf(),
        ensures
            self.shown() == live_text(self.engine(), self.input()),
            self.engine().wf(),
    {
    }

    /// Empty buffer, nothing committed.
    pub fn new(converter: ViterbiConverter) -> (r: Self)
        requires
            converter.wf(),
        ensures
            r.wf(),
            r.engine() == converter,
            r.input() == Seq::<char>::empty(),
            r.committed() == Seq::<char>::empty(),
            r.shown() == Seq::<char>::empty(),
    {
        LiveConversionContext {
            converter,
            input_buffer: String::new(),
            committed_text: String::new(),
            current_conversion: String::new(),
        }
    }

    fn update_conversion(&mut self)
        requires
            old(self).converter.wf(),
        ensures
            final(self).wf(),
            final(self).converter == old(self).converter,
            final(self).input_buffer@ == old(self).input_buffer@,
            final(self).committed_text@ == old(self).committed_text@,
    {
        let cs = chars_of(self.input_buffer.as_str());
        if cs.len() == 0 {
            self.current_conversion = String::new();
        } else {
            self.current_conversion = self.converter.convert_to_string(self.input_buffer.as_str());
        }
    }

    /// Appends hiragana to the buffer and converts it again; returns the
    /// new conversion.
    pub fn add_hiragana(&mut self, hiragana: &str) -> (r: &str)
        requires
            old(self).wf(),
        ensures
            final(self).wf(),
            final(self).engine() == old(self).engine(),
            final(self).input() == old(self).input() + hiragana@,
            final(self).committed() == old(self).committed(),
            r@ == final(self).shown(),
            r@ == live_text(old(self).engine(), old(self).input() + hiragana@),
    {
        append_chars(&mut self.input_buffer, hiragana);
        self.update_conversion();
        self.current_conversion.as_str()
    }

    /// Removes the last character of the buffer, if any, and converts it
    /// again; returns the new conversion.
    pub fn backspace(&mut self) -> (r: &str)
        requires
            old(self).wf(),
        ensures
            final(self).wf(),
            final(self).engine() == old(self).engine(),
            final(self).input() == (if old(self).input().len() == 0 {
                old(self).input()
            } else {
                old(self).input().drop_last()
            }),
            final(self).committed() == old(self).committed(),
            r@ == final(self).shown(),
            r@ == live_text(old(self).engine(), final(self).input()),
    {
        let cs = chars_of(self.input_buffer.as_str());
        if cs.len() > 0 {
            self.input_buffer = string_from_range(cs.as_slice(), 0, cs.len() - 1);
            assert(cs@.subrange(0, cs@.len() - 1) =~= cs@.drop_last());
        }
        self.update_conversion();
        self.current_conversion.as_str()
    }

    /// Commits the shown conversion: it is appended to the committed text
    /// and returned, and the buffer is emptied.
    pub fn commit(&mut self) -> (r: String)
        requires
            old(self).wf(),
        ensures
            final(self).wf(),
            final(self).engine() == old(self).engine(),
            r@ == old(self).shown(),
            final(self).committed() == old(self).committed() + old(self).shown(),
            final(self).input() == Seq::<char>::empty(),
            final(self).shown() == Seq::<char>::empty(),
    {
        let result = self.current_conversion.clone();
        append_chars(&mut self.committed_text, result.as_str());
        self.input_buffer = String::new();
        self.current_conversion = String::new();
        result
    }

    /// Empties the buffer without committing.
    pub fn clear(&mut self)
        requires
            old(self).wf(),
        ensures
            final(self).wf(),
            final(self).engine() == old(self).engine(),
            final(self).committed() == old(self).committed(),
            final(self).input() == Seq::<char>::empty(),
            final(self).shown() == Seq::<char>::empty(),
    {
        self.input_buffer = String::new();
        self.current_conversion = String::new();
    }

    /// The buffer.
    pub fn get_input_buffer(&self) -> (r: &str)
        ensures
            r@ == self.input(),
    {
        self.input_buffer.as_str()
    }

    /// The shown conversion.
    pub fn get_conversion(&self) -> (r: &str)
        ensures
            r@ == self.shown(),
    {
        self.current_conversion.as_str()
    }
}

/// A converter that keeps its last input and result, and converts again
/// only when the input changes.
pub struct IncrementalViterbi {
    converter: ViterbiConverter,
    cached_lattice: Option<Lattice>,
    cached_input: String,
    cached_result: Vec<WordEntry>,
    char_byte_positions: Vec<usize>,
}

impl IncrementalViterbi {
    /// The converter.
    pub closed spec fn engine(&self) -> ViterbiConverter {
        self.converter
    }

    /// The last input converted (empty after the cache is cleared).
    pub closed spec fn last_input(&self) -> Seq<char> {
        self.cached_input@
    }

    /// The remembered result is the conversion of the remembered input,
    /// and the remembered offsets are those of its characters.
    pub closed spec fn wf(&self) -> bool {
        &&& self.converter.wf()
        &&& entries_view(self.cached_result@) == self.converter.conversion(self.cached_input@)
        &&& self.char_byte_positions@.len() == self.cached_input@.len()
        &&& forall|k: int| 0 <= k < self.cached_input@.len() ==> #[trigger] self.char_byte_positions@[k] == offset(self.cached_input@, k)
    }

    /// Nothing remembered.
    pub fn new(converter: ViterbiConverter) -> (r: Self)
        requires
            converter.wf(),
        ensures
            r.wf(),
            r.engine() == converter,
            r.last_input() == Seq::<char>::empty(),
    {
        let r = IncrementalViterbi {
            converter,
            cached_lattice: None,
            cached_input: String::new(),
            cached_result: Vec::new(),
            char_byte_positions: Vec::new(),
        };
        assert(entries_view(r.cached_result@) =~= Seq::<WordSpec>::empty());
        r
    }

    /// The conversion of `input`: the remembered result when `input` is the
    /// remembered input, else a new conversion that is then remembered.
    pub fn convert(&mut self, input: &str) -> (r: &[WordEntry])
        requires
            old(self).wf(),
        ensures
            final(self).wf(),
            final(self).engine() == old(self).engine(),
            final(self).last_input() == input@,
            entries_view(r@) == old(self).engine().conversion(input@),
    {
        let ic = chars_of(input);
        if ic.len() == 0 {
            self.clear_cache();
            assert(input@ =~= Seq::<char>::empty());
            return self.cached_result.as_slice();
        }
        let cc = chars_of(self.cached_input.as_str());
        if chars_eq(ic.as_slice(), cc.as_slice()) {
            return self.cached_result.as_slice();
        }
        self.rebuild_lattice(input);
        self.cached_result.as_slice()
    }

    /// The conversion of `input` as a string.
    pub fn convert_to_string(&mut self, input: &str) -> (r: String)
        requires
            old(self).wf(),
        ensures
            final(self).wf(),
            final(self).engine() == old(self).engine(),
            final(self).last_input() == input@,
            r@ == join_surfaces(old(self).engine().conversion(input@)),
    {
        let v = self.convert(input);
        let mut out = String::new();
        let mut k: usize = 0;
        while k < v.len()
            invariant
                k <= v@.len(),
                out@ == join_surfaces(entries_view(v@).take(k as int)),
            decreases v@.len() - k,
        {
            append_chars(&mut out, v[k].surface.as_str());
            proof {
                let w = entries_view(v@);
                assert(w.take(k + 1).drop_last() =~= w.take(k as int));
                assert(w.take(k + 1).last() == v@[k as int]@);
            }
            k += 1;
        }
        assert(entries_view(v@).take(v@.len() as int) =~= entries_view(v@));
        out
    }

    /// Converts `input` from scratch and remembers it.
    fn rebuild_lattice(&mut self, input: &str)
        requires
            old(self).converter.wf(),
            input@.len() > 0,
        ensures
            final(self).wf(),
            final(self).converter == old(self).converter,
            final(self).cached_input@ == input@,
    {
        let chars = chars_of(input);
        let mut lattice = self.converter.build_lattice(input);
        let ghost orig = lattice;
        let ghost m = self.converter.dictionary.matrix;
        let ghost big = self.converter.learned_bigram@;
        self.converter.find_best_path(&mut lattice);
        proof {
            lemma_solved_ranked(m, big, orig, lattice);
            lemma_best_words_opt(m, big, orig, lattice);
            let l = self.converter.spec_lattice(input@);
            assert(self.converter.lattice_of(input@, l));
            lemma_same_graph(orig, l);
            lemma_opt_same(m, big, orig, l, orig.eos_index as int);
        }
        let words = self.converter.extract_result(&lattice);
        self.cached_result = words;
        self.cached_lattice = Some(lattice);
        self.cached_input = string_from_chars(chars.as_slice());
        let _total = crate::dictionary::byte_len(input);
        let offs = offsets_of(&chars);
        let mut pos: Vec<usize> = Vec::new();
        let mut k: usize = 0;
        while k < chars.len()
            invariant
                k <= chars@.len(),
                offs@.len() == chars@.len() + 1,
                forall|j: int| 0 <= j <= chars@.len() ==> #[trigger] offs@[j] == offset(chars@, j),
                pos@.len() == k,
                forall|j: int| 0 <= j < k ==> #[trigger] pos@[j] == offset(chars@, j),
            decreases chars@.len() - k,
        {
            pos.push(offs[k]);
            k += 1;
        }
        self.char_byte_positions = pos;
    }

    /// Forgets the remembered input and result.
    pub fn clear_cache(&mut self)
        requires
            old(self).wf(),
        ensures
            final(self).wf(),
            final(self).engine() == old(self).engine(),
            final(self).last_input() == Seq::<char>::empty(),
    {
        self.cached_lattice = None;
        self.cached_input = String::new();
        self.cached_result = Vec::new();
        self.char_byte_positions = Vec::new();
        assert(entries_view(self.cached_result@) =~= Seq::<WordSpec>::empty());
    }

    /// Drops the last character of the remembered input and converts the
    /// rest; returns the new result.
    pub fn backspace(&mut self) -> (r: &[WordEntry])
        requires
            old(self).wf(),
        ensures
            final(self).wf(),
            final(self).engine() == old(self).engine(),
            final(self).last_input() == (if old(self).last_input().len() == 0 {
                old(self).last_input()
            } else {
                old(self).last_input().drop_last()
            }),
            entries_view(r@) == old(self).engine().conversion(final(self).last_input()),
    {
        let cs = chars_of(self.cached_input.as_str());
        if cs.len() == 0 {
            return self.cached_result.as_slice();
        }
        let new_input = string_from_range(cs.as_slice(), 0, cs.len() - 1);
        assert(cs@.subrange(0, cs@.len() - 1) =~= cs@.drop_last());
        if cs.len() == 1 {
            self.clear_cache();
            assert(cs@.drop_last() =~= Seq::<char>::empty());
        } else {
            self.rebuild_lattice(new_input.as_str());
        }
        self.cached_result.as_slice()
    }
}

} // verus!
