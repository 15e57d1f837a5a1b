//! Plain records: user dictionary and history rows, the stored form of a
//! dictionary, the reranker that changes nothing, and the text rules of
//! the learning store's queries.

use vstd::prelude::*;
use crate::dictionary::{Dictionary, WordEntry, WordSpec, ConnectionMatrix, entries_view, words_after, filed_by_reading};
use crate::text::{chars_of, push_char, string_from_chars};
use crate::llm::{trim_text, trim_ws};

verus! {

/// A word of the user dictionary.
pub struct UserDictEntry {
    pub id: Option<i64>,
    /// Reading in hiragana.
    pub reading: String,
    /// Surface.
    pub surface: String,
    /// Part of speech, if given.
    pub pos: Option<String>,
    /// Cost (lower is preferred).
    pub cost: i32,
    /// Creation time.
    pub created_at: String,
    /// Update time.
    pub updated_at: String,
}

/// A row of the conversion history.
pub struct ConversionHistoryEntry {
    pub id: Option<i64>,
    /// Reading in hiragana.
    pub reading: String,
    /// Surface chosen.
    pub surface: String,
    /// Number of uses.
    pub frequency: u32,
    /// Time of the last use.
    pub last_used_at: String,
    /// Application it was used in, if known.
    pub app_name: Option<String>,
}

/// A word in the stored form of a dictionary.
pub struct SerializableWordEntry {
    pub surface: String,
    pub reading: String,
    pub left_id: u16,
    pub right_id: u16,
    pub cost: i16,
    pub pos: String,
}

/// The stored form of a dictionary: its words, matrix and sentence ids.
pub struct SerializableDictionary {
    pub words: Vec<SerializableWordEntry>,
    pub matrix_left_size: u16,
    pub matrix_right_size: u16,
    pub matrix_costs: Vec<i16>,
    pub bos_id: u16,
    pub eos_id: u16,
}

pub open spec fn stored_view(w: SerializableWordEntry) -> WordSpec {
    WordSpec {
        surface: w.surface@,
        reading: w.reading@,
        left_id: w.left_id,
        right_id: w.right_id,
        cost: w.cost,
        pos: w.pos@,
    }
}

pub open spec fn stored_words(ws: Seq<SerializableWordEntry>) -> Seq<WordSpec> {
    ws.map_values(|w: SerializableWordEntry| stored_view(w))
}

/// `s` is the stored form of `d`: the words in the order of its word
/// list, its matrix and its sentence ids.
pub open spec fn stored_form_of(d: Dictionary, s: SerializableDictionary) -> bool {
    &&& stored_words(s.words@) == d.trie.word_list()
    &&& s.matrix_left_size == d.matrix.left_size
    &&& s.matrix_right_size == d.matrix.right_size
    &&& s.matrix_costs@ == d.matrix.costs@
    &&& s.bos_id == d.bos_id
    &&& s.eos_id == d.eos_id
}

/// `r` is the dictionary read from the stored form `s`: its words added in
/// order, its matrix and its sentence ids.
pub open spec fn read_from(s: SerializableDictionary, r: Dictionary) -> bool {
    &&& r.wf()
    &&& r.words() == words_after(Map::empty(), stored_words(s.words@))
    &&& r.matrix.left_size == s.matrix_left_size
    &&& r.matrix.right_size == s.matrix_right_size
    &&& r.matrix.costs@ == s.matrix_costs@
    &&& r.bos_id == s.bos_id
    &&& r.eos_id == s.eos_id
}

/// Storing a dictionary and reading it back gives the same readings and
/// words, matrix and sentence ids, when every word is filed under its own
/// reading.
pub proof fn law_store_then_read(d: Dictionary, s: SerializableDictionary, r: Dictionary)
    requires
        d.wf(),
        filed_by_reading(d.words()),
        stored_form_of(d, s),
        read_from(s, r),
    ensures
        r.words() == d.words(),
        r.matrix.left_size == d.matrix.left_size,
        r.matrix.right_size == d.matrix.right_size,
        r.matrix.costs@ == d.matrix.costs@,
        r.bos_id == d.bos_id,
        r.eos_id == d.eos_id,
{
    d.trie.lemma_word_list_regroups();
}

impl Dictionary {
    /// The stored form of the dictionary: every word, reading by reading,
    /// the matrix and the sentence ids.
    pub fn to_serializable(&self) -> (r: SerializableDictionary)
        requires
            self.wf(),
        ensures
            stored_form_of(*self, r),
            forall|w: WordSpec| stored_words(r.words@).contains(w) <==> exists|p: Seq<char>| #[trigger] self.words().contains_key(p) && self.words()[p].contains(w),
            r.matrix_left_size == self.matrix.left_size,
            r.matrix_right_size == self.matrix.right_size,
            r.matrix_costs@ == self.matrix.costs@,
            r.bos_id == self.bos_id,
            r.eos_id == self.eos_id,
    {
        let all = self.all_words();
        let mut words: Vec<SerializableWordEntry> = Vec::new();
        let mut k: usize = 0;
        while k < all.len()
            invariant
                k <= all@.len(),
                stored_words(words@) == entries_view(all@).take(k as int),
            decreases all@.len() - k,
        {
            let w = all[k].clone();
            let ghost wv = w@;
            let ghost before = stored_words(words@);
            words.push(SerializableWordEntry {
                surface: w.surface,
                reading: w.reading,
                left_id: w.left_id,
                right_id: w.right_id,
                cost: w.cost,
                pos: w.pos,
            });
            assert(before.len() == k);
            assert(words@.len() == k + 1);
            assert(stored_view(words@[k as int]) == wv);
            assert(wv == entries_view(all@)[k as int]);
            assert(stored_words(words@) =~= before.push(wv));
            assert(stored_words(words@) =~= entries_view(all@).take(k + 1));
            k += 1;
        }
        assert(entries_view(all@).take(all@.len() as int) =~= entries_view(all@));
        let mut costs: Vec<i16> = Vec::new();
        let mut i: usize = 0;
        while i < self.matrix.costs.len()
            invariant
                i <= self.matrix.costs@.len(),
                costs@ == self.matrix.costs@.take(i as int),
            decreases self.matrix.costs@.len() - i,
        {
            costs.push(self.matrix.costs[i]);
            assert(costs@ =~= self.matrix.costs@.take(i + 1));
            i += 1;
        }
        assert(costs@ =~= self.matrix.costs@);
        SerializableDictionary {
            words,
            matrix_left_size: self.matrix.left_size,
            matrix_right_size: self.matrix.right_size,
            matrix_costs: costs,
            bos_id: self.bos_id,
            eos_id: self.eos_id,
        }
    }

    /// The dictionary of a stored form: its matrix and ids, and its words
    /// added in order.
    pub fn from_serializable(s: SerializableDictionary) -> (r: Dictionary)
        ensures
            read_from(s, r),
            r.wf(),
            r.words() == words_after(Map::empty(), stored_words(s.words@)),
            r.matrix.left_size == s.matrix_left_size,
            r.matrix.right_size == s.matrix_right_size,
            r.matrix.costs@ == s.matrix_costs@,
            r.bos_id == s.bos_id,
            r.eos_id == s.eos_id,
    {
        let mut dict = Dictionary::new();
        dict.matrix = ConnectionMatrix { left_size: s.matrix_left_size, right_size: s.matrix_right_size, costs: s.matrix_costs };
        dict.bos_id = s.bos_id;
        dict.eos_id = s.eos_id;
        let ghost sw = stored_words(s.words@);
        let ghost ms = dict.matrix;
        let mut rest = s.words;
        let ghost all = rest@;
        // words are moved out from the back, so walk a reversed copy
        let mut rev: Vec<SerializableWordEntry> = Vec::new();
        while rest.len() > 0
            invariant
                rest@ == all.take(rest@.len() as int),
                rev@.len() + rest@.len() == all.len(),
                forall|q: int| 0 <= q < rev@.len() ==> #[trigger] rev@[q] == all[all.len() - 1 - q],
            decreases rest@.len(),
        {
            let w = rest.pop().unwrap();
            rev.push(w);
            assert(rest@ =~= all.take(rest@.len() as int));
        }
        while rev.len() > 0
            invariant
                dict.wf(),
                dict.matrix == ms,
                dict.bos_id == s.bos_id,
                dict.eos_id == s.eos_id,
                sw == stored_words(all),
                rev@.len() <= all.len(),
                forall|q: int| 0 <= q < rev@.len() ==> #[trigger] rev@[q] == all[all.len() - 1 - q],
                dict.words() == words_after(Map::empty(), sw.take(all.len() - rev@.len())),
            decreases rev@.len(),
        {
            let w = rev.pop().unwrap();
            let ghost t = all.len() - rev@.len();
            proof {
                assert(w == all[t - 1]);
                assert(sw.take(t).drop_last() =~= sw.take(t - 1));
                assert(sw.take(t).last() == stored_view(w));
            }
            dict.add_word(WordEntry {
                surface: w.surface,
                reading: w.reading,
                left_id: w.left_id,
                right_id: w.right_id,
                cost: w.cost,
                pos: w.pos,
            });
        }
        assert(sw.take(all.len() as int) =~= sw);
        dict
    }
}

/// A reranker that leaves the candidates as they are.
pub struct NoopReranker;

impl NoopReranker {
    /// Name of the reranker.
    pub fn name(&self) -> (r: &'static str)
        ensures
            r@ == "noop"@,
    {
        "noop"
    }
}


/// A character as it stands in a LIKE pattern: backslash, `%` and `_` get
/// a backslash before them.
pub open spec fn like_escaped(c: char) -> Seq<char> {
    if c == '\\' || c == '%' || c == '_' {
        seq!['\\', c]
    } else {
        seq![c]
    }
}

/// Text with each character escaped for a LIKE pattern.
pub open spec fn escape_like(s: Seq<char>) -> Seq<char>
    decreases s.len(),
{
    if s.len() == 0 {
        s
    } else {
        escape_like(s.drop_last()) + like_escaped(s.last())
    }
}

/// The LIKE pattern (with backslash as escape) that matches the texts
/// starting with `prefix`.
pub fn like_prefix_pattern(prefix: &str) -> (r: String)
    ensures
        r@ == escape_like(prefix@).push('%'),
{
    let cs = chars_of(prefix);
    let mut out = String::new();
    let mut i: usize = 0;
    assert(cs@.take(0) =~= Seq::<char>::empty());
    while i < cs.len()
        invariant
            i <= cs.len(),
            cs@ == prefix@,
            out@ == escape_like(cs@.take(i as int)),
        decreases cs.len() - i,
    {
        let c = cs[i];
        assert(cs@.take(i + 1).drop_last() =~= cs@.take(i as int));
        if c == '\\' || c == '%' || c == '_' {
            push_char(&mut out, '\\');
        }
        push_char(&mut out, c);
        assert(out@ =~= escape_like(cs@.take(i + 1)));
        i += 1;
    }
    assert(cs@.take(cs.len() as int) =~= cs@);
    push_char(&mut out, '%');
    out
}

/// A command line as the history keeps it: trimmed, and only when it has
/// two characters or more.
pub fn command_to_record(command: &str) -> (r: Option<String>)
    ensures
        r is Some <==> trim_ws(command@).len() >= 2,
        r matches Some(c) ==> c@ == trim_ws(command@),
{
    let t = trim_text(command);
    if t.len() < 2 {
        None
    } else {
        Some(string_from_chars(t.as_slice()))
    }
}

} // verus!
