//! Word entries, the reading trie, the connection-cost matrix and the
//! dictionary that combines them.

use vstd::prelude::*;
use vstd::string::StringSliceAdditionalSpecFns;
use crate::text::{chars_of, chars_eq, vec_from_range, string_from_chars};
use crate::distance::{edit_distance, edit_distance_chars, lemma_distance_len_gap};

verus! {

/// Part-of-speech context id.
pub type PosId = u16;

/// A dictionary word.
pub struct WordEntry {
    /// Surface form (kanji and so on).
    pub surface: String,
    /// Reading in hiragana.
    pub reading: String,
    /// Left context id.
    pub left_id: PosId,
    /// Right context id.
    pub right_id: PosId,
    /// Word cost (lower is more likely).
    pub cost: i16,
    /// Part-of-speech description.
    pub pos: String,
}

/// The mathematical value of a word entry.
pub struct WordSpec {
    pub surface: Seq<char>,
    pub reading: Seq<char>,
    pub left_id: PosId,
    pub right_id: PosId,
    pub cost: i16,
    pub pos: Seq<char>,
}

impl View for WordEntry {
    type V = WordSpec;

    open spec fn view(&self) -> WordSpec {
        WordSpec {
            surface: self.surface@,
            reading: self.reading@,
            left_id: self.left_id,
            right_id: self.right_id,
            cost: self.cost,
            pos: self.pos@,
        }
    }
}

impl Clone for WordEntry {
    fn clone(&self) -> (r: Self)
        ensures
            r@ == self@,
    {
        WordEntry {
            surface: self.surface.clone(),
            reading: self.reading.clone(),
            left_id: self.left_id,
            right_id: self.right_id,
            cost: self.cost,
            pos: self.pos.clone(),
        }
    }
}

pub open spec fn entries_view(v: Seq<WordEntry>) -> Seq<WordSpec> {
    v.map_values(|e: WordEntry| e@)
}

/// Reference to a word in a packed binary dictionary.
#[derive(Clone, Copy)]
pub struct WordRef {
    /// Offset into the word data.
    pub offset: u32,
    /// Length of the data.
    pub length: u16,
}

/// Number of bytes of a character in UTF-8.
pub open spec fn char_utf8_len(c: char) -> nat {
    if (c as u32) < 0x80 {
        1
    } else if (c as u32) < 0x800 {
        2
    } else if (c as u32) < 0x10000 {
        3
    } else {
        4
    }
}

/// Number of bytes of a character sequence in UTF-8.
pub open spec fn utf8_len(s: Seq<char>) -> nat
    decreases s.len(),
{
    if s.len() == 0 {
        0
    } else {
        char_utf8_len(s[0]) + utf8_len(s.drop_first())
    }
}

pub fn len_utf8(c: char) -> (r: usize)
    ensures
        r == char_utf8_len(c),
{
    let u = c as u32;
    if u < 0x80 {
        1
    } else if u < 0x800 {
        2
    } else if u < 0x10000 {
        3
    } else {
        4
    }
}

pub proof fn lemma_utf8_additive(a: Seq<char>, b: Seq<char>)
    ensures
        utf8_len(a + b) == utf8_len(a) + utf8_len(b),
    decreases a.len(),
{
    if a.len() > 0 {
        lemma_utf8_additive(a.drop_first(), b);
        assert((a + b).drop_first() =~= a.drop_first() + b);
    } else {
        assert(a + b =~= b);
    }
}

pub proof fn lemma_utf8_take_step(s: Seq<char>, i: int)
    requires
        0 <= i < s.len(),
    ensures
        utf8_len(s.take(i + 1)) == utf8_len(s.take(i)) + char_utf8_len(s[i]),
{
    assert(s.take(i + 1) =~= s.take(i) + seq![s[i]]);
    lemma_utf8_additive(s.take(i), seq![s[i]]);
    assert(seq![s[i]].drop_first() =~= Seq::<char>::empty());
    assert(utf8_len(seq![s[i]]) == char_utf8_len(s[i]) + utf8_len(Seq::<char>::empty()));
}

/// Byte length of a string slice: the UTF-8 length of its characters.
pub fn byte_len(s: &str) -> (r: usize)
    ensures
        r as nat == utf8_len(s@),
{
    let bytes = s.as_bytes();
    proof {
        lemma_utf8_encode(s@);
    }
    bytes.len()
}

proof fn lemma_utf8_encode(s: Seq<char>)
    ensures
        utf8_len(s) == vstd::utf8::encode_utf8(s).len(),
    decreases s.len(),
{
    if s.len() > 0 {
        lemma_utf8_encode(s.drop_first());
        vstd::utf8::char_is_scalar(s[0]);
    }
}

pub proof fn lemma_utf8_prefix_le(s: Seq<char>, i: int)
    requires
        0 <= i <= s.len(),
    ensures
        utf8_len(s.take(i)) <= utf8_len(s),
{
    assert(s =~= s.take(i) + s.skip(i));
    lemma_utf8_additive(s.take(i), s.skip(i));
}

struct TrieSlot {
    key: Vec<char>,
    children: Vec<(char, usize)>,
    entries: Vec<WordEntry>,
    is_end: bool,
}

/// Trie of readings; each node that ends a reading holds the words with that
/// reading.
pub struct TrieNode {
    slots: Vec<TrieSlot>,
    parent: Ghost<Seq<(int, int)>>,
}

impl TrieNode {
    pub closed spec fn n(&self) -> int {
        self.slots@.len() as int
    }

    pub closed spec fn key(&self, i: int) -> Seq<char> {
        self.slots@[i].key@
    }

    pub closed spec fn child(&self, i: int, k: int) -> (char, usize) {
        self.slots@[i].children@[k]
    }

    pub closed spec fn nkids(&self, i: int) -> int {
        self.slots@[i].children@.len() as int
    }

    pub closed spec fn ended(&self, i: int) -> bool {
        self.slots@[i].is_end
    }

    pub closed spec fn slot_entries(&self, i: int) -> Seq<WordSpec> {
        entries_view(self.slots@[i].entries@)
    }

    /// Structural invariant of the trie.
    pub closed spec fn wf(&self) -> bool {
        let n = self.n();
        &&& n >= 1
        &&& self.parent@.len() == n
        &&& self.key(0) == Seq::<char>::empty()
        &&& forall|i: int, k: int|
            0 <= i < n && 0 <= k < self.nkids(i) ==> {
                let ch = #[trigger] self.child(i, k);
                &&& 0 < ch.1 < n
                &&& self.key(ch.1 as int) == self.key(i).push(ch.0)
            }
        &&& forall|i: int, k1: int, k2: int|
            0 <= i < n && 0 <= k1 < self.nkids(i) && 0 <= k2 < self.nkids(i) && k1 != k2
                ==> #[trigger] self.child(i, k1).0 != #[trigger] self.child(i, k2).0
        &&& forall|j: int|
            0 < j < n ==> {
                let pk = #[trigger] self.parent@[j];
                &&& 0 <= pk.0 < n
                &&& 0 <= pk.1 < self.nkids(pk.0)
                &&& self.child(pk.0, pk.1).1 == j
            }
        &&& forall|i: int, j: int|
            0 <= i < n && 0 <= j < n && i != j ==> #[trigger] self.key(i) != #[trigger] self.key(j)
        &&& forall|i: int| 0 <= i < n && !self.ended(i) ==> self.slots@[i].entries@.len() == 0
    }

    /// The readings held by the trie and the words of each.
    pub closed spec fn spec_map(&self) -> Map<Seq<char>, Seq<WordSpec>> {
        Map::new(
            |p: Seq<char>| exists|i: int| 0 <= i < self.n() && #[trigger] self.key(i) == p && self.ended(i),
            |p: Seq<char>|
                {
                    let i = choose|i: int| 0 <= i < self.n() && #[trigger] self.key(i) == p && self.ended(i);
                    self.slot_entries(i)
                },
        )
    }

    /// The words of the first `n` nodes, node by node.
    pub closed spec fn words_upto(&self, n: int) -> Seq<WordSpec>
        decreases n,
    {
        if n <= 0 {
            Seq::empty()
        } else {
            self.words_upto(n - 1) + if self.ended(n - 1) {
                self.slot_entries(n - 1)
            } else {
                Seq::empty()
            }
        }
    }

    /// All words of the trie, node by node; the words of one reading stay
    /// together and in their order.
    pub closed spec fn word_list(&self) -> Seq<WordSpec> {
        self.words_upto(self.n())
    }

    proof fn lemma_at(&self, i: int)
        requires
            self.wf(),
            0 <= i < self.n(),
        ensures
            self.ended(i) ==> self.spec_map().contains_key(self.key(i)) && self.spec_map()[self.key(i)] == self.slot_entries(i),
            !self.ended(i) ==> !self.spec_map().contains_key(self.key(i)),
    {
        if self.ended(i) {
            assert(self.spec_map().contains_key(self.key(i)));
            let j = choose|j: int| 0 <= j < self.n() && #[trigger] self.key(j) == self.key(i) && self.ended(j);
            assert(j == i);
        } else {
            if self.spec_map().contains_key(self.key(i)) {
                let j = choose|j: int| 0 <= j < self.n() && #[trigger] self.key(j) == self.key(i) && self.ended(j);
                assert(j == i);
            }
        }
    }

    /// No node lies below a missing child edge.
    proof fn lemma_missing_edge(&self, cur: int, c: char, j: int)
        requires
            self.wf(),
            0 <= cur < self.n(),
            0 <= j < self.n(),
            forall|k: int| 0 <= k < self.nkids(cur) ==> #[trigger] self.child(cur, k).0 != c,
        ensures
            !(self.key(cur).len() + 1 <= self.key(j).len() && self.key(j).take(self.key(cur).len() + 1int) == self.key(cur).push(c)),
        decreases self.key(j).len(),
    {
        let q = self.key(cur).push(c);
        if self.key(cur).len() + 1 <= self.key(j).len() && self.key(j).take(q.len() as int) == q {
            assert(j != 0);
            let pk = self.parent@[j];
            let p = pk.0;
            let ch = self.child(p, pk.1);
            assert(self.key(j) == self.key(p).push(ch.0));
            if self.key(j).len() == q.len() {
                assert(self.key(j) =~= q);
                assert(self.key(p) =~= self.key(j).drop_last());
                assert(self.key(cur) =~= q.drop_last());
                assert(self.key(p) =~= self.key(cur));
                assert(p == cur);
                assert(self.key(j)[self.key(j).len() - 1] == ch.0);
                assert(q[q.len() - 1] == c);
            } else {
                assert(self.key(p).take(q.len() as int) =~= q);
                self.lemma_missing_edge(cur, c, p);
            }
        }
    }

    /// Empty trie.
    pub fn new() -> (r: Self)
        ensures
            r.wf(),
            r.spec_map() == Map::<Seq<char>, Seq<WordSpec>>::empty(),
    {
        let root = TrieSlot { key: Vec::new(), children: Vec::new(), entries: Vec::new(), is_end: false };
        let mut slots: Vec<TrieSlot> = Vec::new();
        slots.push(root);
        let ghost par = seq![(0int, 0int)];
        let r = TrieNode { slots, parent: Ghost(par) };
        assert(r.key(0) =~= Seq::<char>::empty());
        assert(r.spec_map() =~= Map::<Seq<char>, Seq<WordSpec>>::empty()) by {
            assert forall|p: Seq<char>| !r.spec_map().contains_key(p) by {
                if r.spec_map().contains_key(p) {
                    let i = choose|i: int| 0 <= i < r.n() && #[trigger] r.key(i) == p && r.ended(i);
                    assert(i == 0);
                }
            }
        }
        r
    }

    fn find_child(&self, node: usize, c: char) -> (r: Option<usize>)
        requires
            self.wf(),
            node < self.n(),
        ensures
            r matches Some(j) ==> exists|k: int| 0 <= k < self.nkids(node as int) && #[trigger] self.child(node as int, k) == (c, j),
            r is None ==> forall|k: int| 0 <= k < self.nkids(node as int) ==> #[trigger] self.child(node as int, k).0 != c,
    {
        let kids = &self.slots[node].children;
        let mut k: usize = 0;
        while k < kids.len()
            invariant
                kids@ == self.slots@[node as int].children@,
                k <= kids.len(),
                forall|m: int| 0 <= m < k ==> #[trigger] self.child(node as int, m).0 != c,
            decreases kids.len() - k,
        {
            if kids[k].0 == c {
                assert(self.child(node as int, k as int) == (c, kids[k as int].1));
                return Some(kids[k].1);
            }
            k += 1;
        }
        None
    }

    /// Node index reached by following `chars`, if every edge exists.
    fn walk(&self, chars: &[char]) -> (r: Option<usize>)
        requires
            self.wf(),
        ensures
            r matches Some(j) ==> j < self.n() && self.key(j as int) == chars@,
            r is None ==> forall|j: int| 0 <= j < self.n() ==> self.key(j) != chars@,
    {
        let mut node: usize = 0;
        let mut i: usize = 0;
        while i < chars.len()
            invariant
                self.wf(),
                i <= chars.len(),
                node < self.n(),
                self.key(node as int) == chars@.take(i as int),
            decreases chars.len() - i,
        {
            match self.find_child(node, chars[i]) {
                Some(j) => {
                    assert(chars@.take(i + 1) == chars@.take(i as int).push(chars@[i as int]));
                    node = j;
                },
                None => {
                    proof {
                        assert forall|j: int| 0 <= j < self.n() implies self.key(j) != chars@ by {
                            self.lemma_missing_edge(node as int, chars@[i as int], j);
                            if self.key(j) == chars@ {
                                assert(chars@.take(i + 1) == chars@.take(i as int).push(chars@[i as int]));
                            }
                        }
                    }
                    return None;
                },
            }
            i += 1;
        }
        assert(chars@.take(chars.len() as int) == chars@);
        Some(node)
    }

    /// Adds a word under `reading`.
    pub fn insert(&mut self, reading: &str, entry: WordEntry)
        requires
            old(self).wf(),
        ensures
            final(self).wf(),
            final(self).spec_map() == old(self).spec_map().insert(
                reading@,
                if old(self).spec_map().contains_key(reading@) {
                    old(self).spec_map()[reading@]
                } else {
                    Seq::empty()
                }.push(entry@),
            ),
    {
        let chars = chars_of(reading);
        self.insert_chars(&chars, entry);
    }

    proof fn lemma_map_same(a: &Self, b: &Self)
        requires
            a.wf(),
            b.wf(),
            a.n() <= b.n(),
            forall|i: int| 0 <= i < a.n() ==> b.key(i) == a.key(i) && b.ended(i) == a.ended(i) && b.slot_entries(i) == a.slot_entries(i),
            forall|i: int| a.n() <= i < b.n() ==> !b.ended(i),
        ensures
            b.spec_map() == a.spec_map(),
    {
        assert forall|p: Seq<char>| #[trigger] b.spec_map().contains_key(p) == a.spec_map().contains_key(p) && (a.spec_map().contains_key(p) ==> b.spec_map()[p] == a.spec_map()[p]) by {
            if a.spec_map().contains_key(p) {
                let i = choose|i: int| 0 <= i < a.n() && #[trigger] a.key(i) == p && a.ended(i);
                a.lemma_at(i);
                b.lemma_at(i);
            }
            if b.spec_map().contains_key(p) {
                let i = choose|i: int| 0 <= i < b.n() && #[trigger] b.key(i) == p && b.ended(i);
                b.lemma_at(i);
                a.lemma_at(i);
            }
        }
        assert(b.spec_map() =~= a.spec_map());
    }

    fn insert_chars(&mut self, chars: &[char], entry: WordEntry)
        requires
            old(self).wf(),
        ensures
            final(self).wf(),
            final(self).spec_map() == old(self).spec_map().insert(
                chars@,
                if old(self).spec_map().contains_key(chars@) {
                    old(self).spec_map()[chars@]
                } else {
                    Seq::empty()
                }.push(entry@),
            ),
    {
        let ghost orig = *self;
        let mut node: usize = 0;
        let mut i: usize = 0;
        while i < chars.len()
            invariant
                self.wf(),
                i <= chars.len(),
                node < self.n(),
                self.key(node as int) == chars@.take(i as int),
                self.spec_map() == orig.spec_map(),
                orig.n() <= self.n(),
                forall|m: int| 0 <= m < orig.n() ==> self.key(m) == orig.key(m) && self.ended(m) == orig.ended(m) && self.slot_entries(m) == orig.slot_entries(m),
                forall|m: int| orig.n() <= m < self.n() ==> !self.ended(m),
            decreases chars.len() - i,
        {
            let c = chars[i];
            assert(chars@.take(i + 1) == chars@.take(i as int).push(chars@[i as int]));
            match self.find_child(node, c) {
                Some(j) => {
                    node = j;
                },
                None => {
                    let ghost before = *self;
                    let j = self.slots.len();
                    let key = vec_from_range(chars, 0, i + 1);
                    assert(key@ == chars@.take(i + 1));
                    proof {
                        assert forall|m: int| 0 <= m < before.n() implies before.key(m) != key@ by {
                            before.lemma_missing_edge(node as int, c, m);
                            if before.key(m) == key@ {
                                assert(key@.take(i + 1) == key@);
                            }
                        }
                    }
                    let kslot = self.slots[node].children.len();
                    self.slots.push(TrieSlot { key, children: Vec::new(), entries: Vec::new(), is_end: false });
                    self.slots[node].children.push((c, j));
                    let ghost newpar = self.parent@.push((node as int, kslot as int));
                    self.parent = Ghost(newpar);
                    proof {
                        assert(self.n() == before.n() + 1);
                        assert forall|m: int| #![trigger self.slots@[m]] 0 <= m < before.n() implies self.key(m) == before.key(m) && self.ended(m) == before.ended(m) && self.slot_entries(m) == before.slot_entries(m) && self.slots@[m].entries@ == before.slots@[m].entries@ && (m != node ==> self.slots@[m].children@ == before.slots@[m].children@) by {}
                        assert(!self.ended(j as int));
                        assert(self.slots@[j as int].entries@.len() == 0);
                        assert(self.slots@[node as int].children@ == before.slots@[node as int].children@.push((c, j)));
                        assert forall|a: int, k: int| 0 <= a < self.n() && 0 <= k < self.nkids(a) implies ({
                            let ch = #[trigger] self.child(a, k);
                            &&& 0 < ch.1 < self.n()
                            &&& self.key(ch.1 as int) == self.key(a).push(ch.0)
                        }) by {
                            if a == node && k == kslot {
                            } else if a < before.n() {
                                assert(self.child(a, k) == before.child(a, k));
                            }
                        }
                        assert forall|a: int, k1: int, k2: int|
                            0 <= a < self.n() && 0 <= k1 < self.nkids(a) && 0 <= k2 < self.nkids(a) && k1 != k2
                            implies #[trigger] self.child(a, k1).0 != #[trigger] self.child(a, k2).0 by {
                            if a < before.n() {
                                if a == node {
                                    if k1 == kslot {
                                        assert(before.child(a, k2).0 != c);
                                    } else if k2 == kslot {
                                        assert(before.child(a, k1).0 != c);
                                    } else {
                                        assert(self.child(a, k1) == before.child(a, k1));
                                        assert(self.child(a, k2) == before.child(a, k2));
                                    }
                                } else {
                                    assert(self.child(a, k1) == before.child(a, k1));
                                    assert(self.child(a, k2) == before.child(a, k2));
                                }
                            }
                        }
                        assert forall|b: int| 0 < b < self.n() implies ({
                            let pk = #[trigger] self.parent@[b];
                            &&& 0 <= pk.0 < self.n()
                            &&& 0 <= pk.1 < self.nkids(pk.0)
                            &&& self.child(pk.0, pk.1).1 == b
                        }) by {
                            if b < before.n() {
                                let pk = before.parent@[b];
                                assert(self.parent@[b] == pk);
                                if pk.0 == node {
                                    assert(self.child(pk.0, pk.1) == before.child(pk.0, pk.1));
                                } else {
                                    assert(self.child(pk.0, pk.1) == before.child(pk.0, pk.1));
                                }
                            }
                        }
                        assert forall|a: int, b: int| 0 <= a < self.n() && 0 <= b < self.n() && a != b implies #[trigger] self.key(a) != #[trigger] self.key(b) by {
                            if a < before.n() && b < before.n() {
                                assert(before.key(a) != before.key(b));
                            } else if a == j {
                                assert(self.key(a) == key@);
                                assert(before.key(b) != key@);
                            } else {
                                assert(self.key(b) == key@);
                                assert(before.key(a) != key@);
                            }
                        }
                        assert forall|a: int| 0 <= a < self.n() && !self.ended(a) implies self.slots@[a].entries@.len() == 0 by {
                            if a < before.n() {
                                assert(self.slots@[a].entries@ == before.slots@[a].entries@);
                                assert(self.slots@[a].is_end == before.slots@[a].is_end);
                            }
                        }
                        assert(self.wf());
                        TrieNode::lemma_map_same(&before, self);
                    }
                    proof {
                        assert forall|m: int| orig.n() <= m < self.n() implies !self.ended(m) by {
                            if m < before.n() {
                                assert(self.slots@[m].is_end == before.slots@[m].is_end);
                            }
                        }
                    }
                    node = j;
                },
            }
            i += 1;
        }
        assert(chars@.take(chars.len() as int) == chars@);
        let ghost before = *self;
        self.slots[node].is_end = true;
        self.slots[node].entries.push(entry);
        proof {
            assert forall|m: int| 0 <= m < self.n() && m != node implies self.slots@[m] == before.slots@[m] by {}
            assert(self.slot_entries(node as int) == before.slot_entries(node as int).push(entry@));
            assert(self.wf()) by {
                assert forall|a: int, k: int| 0 <= a < self.n() && 0 <= k < self.nkids(a) implies ({
                    let ch = #[trigger] self.child(a, k);
                    &&& 0 < ch.1 < self.n()
                    &&& self.key(ch.1 as int) == self.key(a).push(ch.0)
                }) by {
                    assert(self.child(a, k) == before.child(a, k));
                }
                assert forall|a: int, k1: int, k2: int|
                    0 <= a < self.n() && 0 <= k1 < self.nkids(a) && 0 <= k2 < self.nkids(a) && k1 != k2
                    implies #[trigger] self.child(a, k1).0 != #[trigger] self.child(a, k2).0 by {
                    assert(self.child(a, k1) == before.child(a, k1));
                    assert(self.child(a, k2) == before.child(a, k2));
                }
                assert forall|b: int| 0 < b < self.n() implies ({
                    let pk = #[trigger] self.parent@[b];
                    &&& 0 <= pk.0 < self.n()
                    &&& 0 <= pk.1 < self.nkids(pk.0)
                    &&& self.child(pk.0, pk.1).1 == b
                }) by {
                    let pk = before.parent@[b];
                    assert(self.child(pk.0, pk.1) == before.child(pk.0, pk.1));
                }
                assert forall|a: int, b: int| 0 <= a < self.n() && 0 <= b < self.n() && a != b implies #[trigger] self.key(a) != #[trigger] self.key(b) by {
                    assert(self.key(a) == before.key(a));
                    assert(self.key(b) == before.key(b));
                }
                assert forall|a: int| 0 <= a < self.n() && !self.ended(a) implies self.slots@[a].entries@.len() == 0 by {
                    if a != node {
                        assert(self.slots@[a] == before.slots@[a]);
                        assert(!before.ended(a));
                    } else {
                        assert(self.ended(a));
                    }
                }
            }
            before.lemma_at(node as int);
            let newv = if orig.spec_map().contains_key(chars@) {
                orig.spec_map()[chars@]
            } else {
                Seq::empty()
            }.push(entry@);
            assert forall|p: Seq<char>| #[trigger] self.spec_map().contains_key(p) == orig.spec_map().insert(chars@, newv).contains_key(p) && (self.spec_map().contains_key(p) ==> self.spec_map()[p] == orig.spec_map().insert(chars@, newv)[p]) by {
                self.lemma_at(node as int);
                if p == chars@ {
                } else {
                    if self.spec_map().contains_key(p) {
                        let m = choose|m: int| 0 <= m < self.n() && #[trigger] self.key(m) == p && self.ended(m);
                        self.lemma_at(m);
                        before.lemma_at(m);
                    }
                    if before.spec_map().contains_key(p) {
                        let m = choose|m: int| 0 <= m < before.n() && #[trigger] before.key(m) == p && before.ended(m);
                        self.lemma_at(m);
                        before.lemma_at(m);
                    }
                }
            }
            assert(self.spec_map() =~= orig.spec_map().insert(chars@, newv));
        }
    }
}


/// Readings among the prefixes `t[..1]`, ..., `t[..upto]` that `m` holds, in
/// increasing length, each with its length in characters and its words.
pub open spec fn prefix_hits(m: Map<Seq<char>, Seq<WordSpec>>, t: Seq<char>, upto: nat) -> Seq<(nat, Seq<WordSpec>)>
    decreases upto,
{
    if upto == 0 {
        Seq::empty()
    } else {
        let prev = prefix_hits(m, t, (upto - 1) as nat);
        if m.contains_key(t.take(upto as int)) {
            prev.push((upto, m[t.take(upto as int)]))
        } else {
            prev
        }
    }
}

/// The same hits with lengths in UTF-8 bytes.
pub open spec fn prefix_hits_bytes(m: Map<Seq<char>, Seq<WordSpec>>, t: Seq<char>) -> Seq<(nat, Seq<WordSpec>)> {
    prefix_hits(m, t, t.len()).map_values(|h: (nat, Seq<WordSpec>)| (utf8_len(t.take(h.0 as int)), h.1))
}

proof fn lemma_hits_stable(m: Map<Seq<char>, Seq<WordSpec>>, t: Seq<char>, a: nat, b: nat)
    requires
        a <= b,
        forall|l: int| a < l <= b ==> !m.contains_key(#[trigger] t.take(l)),
    ensures
        prefix_hits(m, t, b) == prefix_hits(m, t, a),
    decreases b,
{
    if b > a {
        lemma_hits_stable(m, t, a, (b - 1) as nat);
        assert(!m.contains_key(t.take(b as int)));
    }
}

pub(crate) proof fn lemma_hits_facts(m: Map<Seq<char>, Seq<WordSpec>>, t: Seq<char>, upto: nat)
    requires
        upto <= t.len(),
    ensures
        forall|i: int, j: int| 0 <= i < j < prefix_hits(m, t, upto).len() ==> (#[trigger] prefix_hits(m, t, upto)[i]).0
            < (#[trigger] prefix_hits(m, t, upto)[j]).0,
        forall|i: int| 0 <= i < prefix_hits(m, t, upto).len() ==> {
            let h = #[trigger] prefix_hits(m, t, upto)[i];
            &&& 1 <= h.0 <= upto
            &&& m.contains_key(t.take(h.0 as int))
            &&& h.1 == m[t.take(h.0 as int)]
        },
        forall|l: int| 1 <= l <= upto && m.contains_key(#[trigger] t.take(l)) ==> exists|i: int|
            0 <= i < prefix_hits(m, t, upto).len() && (#[trigger] prefix_hits(m, t, upto)[i]).0 == l,
    decreases upto,
{
    if upto > 0 {
        let u1 = (upto - 1) as nat;
        lemma_hits_facts(m, t, u1);
        let prev = prefix_hits(m, t, u1);
        let cur = prefix_hits(m, t, upto);
        if m.contains_key(t.take(upto as int)) {
            assert(cur == prev.push((upto, m[t.take(upto as int)])));
            assert forall|i: int| 0 <= i < prev.len() implies cur[i] == prev[i] by {}
            assert forall|l: int| 1 <= l <= upto && m.contains_key(#[trigger] t.take(l)) implies exists|i: int|
                0 <= i < cur.len() && (#[trigger] cur[i]).0 == l by {
                if l < upto {
                    let i = choose|i: int| 0 <= i < prev.len() && (#[trigger] prev[i]).0 == l;
                    assert(cur[i] == prev[i]);
                } else {
                    assert(cur[prev.len() as int].0 == l);
                }
            }
        } else {
            assert(cur == prev);
            assert forall|l: int| 1 <= l <= upto && m.contains_key(#[trigger] t.take(l)) implies exists|i: int|
                0 <= i < cur.len() && (#[trigger] cur[i]).0 == l by {
                if l == upto {
                    assert(false);
                }
            }
        }
    }
}

/// `h` is the byte length of a non-empty prefix of whole characters of `t`
/// that is a reading of `m`, with its words.
pub open spec fn hit_of_prefix(m: Map<Seq<char>, Seq<WordSpec>>, t: Seq<char>, h: (nat, Seq<WordSpec>)) -> bool {
    exists|l: int| 1 <= l <= t.len() && h.0 == utf8_len(#[trigger] t.take(l)) && m.contains_key(t.take(l)) && h.1 == m[t.take(l)]
}

proof fn lemma_utf8_take_increasing(t: Seq<char>, a: int, b: int)
    requires
        0 <= a < b <= t.len(),
    ensures
        utf8_len(t.take(a)) < utf8_len(t.take(b)),
    decreases b - a,
{
    lemma_utf8_take_step(t, b - 1);
    if a < b - 1 {
        lemma_utf8_take_increasing(t, a, b - 1);
    }
}

/// The prefix hits of a text, counted in UTF-8 bytes, come in strictly
/// increasing lengths; each is the byte length of a non-empty prefix of
/// whole characters that is a reading of the dictionary, with its words;
/// and every such prefix is among them.
pub proof fn law_prefix_hits(m: Map<Seq<char>, Seq<WordSpec>>, t: Seq<char>)
    ensures
        forall|i: int, j: int| 0 <= i < j < prefix_hits_bytes(m, t).len() ==> (#[trigger] prefix_hits_bytes(m, t)[i]).0
            < (#[trigger] prefix_hits_bytes(m, t)[j]).0,
        forall|i: int| 0 <= i < prefix_hits_bytes(m, t).len() ==> hit_of_prefix(m, t, #[trigger] prefix_hits_bytes(m, t)[i]),
        forall|l: int| 1 <= l <= t.len() && m.contains_key(#[trigger] t.take(l)) ==> exists|i: int|
            0 <= i < prefix_hits_bytes(m, t).len() && (#[trigger] prefix_hits_bytes(m, t)[i]).0 == utf8_len(t.take(l))
                && prefix_hits_bytes(m, t)[i].1 == m[t.take(l)],
{
    lemma_hits_facts(m, t, t.len());
    let h = prefix_hits(m, t, t.len());
    let hb = prefix_hits_bytes(m, t);
    assert forall|i: int| 0 <= i < hb.len() implies #[trigger] hb[i] == (utf8_len(t.take(h[i].0 as int)), h[i].1) by {}
    assert forall|i: int, j: int| 0 <= i < j < hb.len() implies (#[trigger] hb[i]).0 < (#[trigger] hb[j]).0 by {
        assert(h[i].0 < h[j].0);
        assert(hb[i] == (utf8_len(t.take(h[i].0 as int)), h[i].1));
        assert(hb[j] == (utf8_len(t.take(h[j].0 as int)), h[j].1));
        lemma_utf8_take_increasing(t, h[i].0 as int, h[j].0 as int);
    }
    assert forall|i: int| 0 <= i < prefix_hits_bytes(m, t).len() implies hit_of_prefix(m, t, #[trigger] prefix_hits_bytes(m, t)[i]) by {
        assert(hb[i] == (utf8_len(t.take(h[i].0 as int)), h[i].1));
        let l = h[i].0 as int;
        let hi = h[i];
        assert(1 <= hi.0 <= t.len() && m.contains_key(t.take(hi.0 as int)) && hi.1 == m[t.take(hi.0 as int)]);
        assert(1 <= l <= t.len());
        assert(hb[i].0 == utf8_len(t.take(l)));
        assert(m.contains_key(t.take(l)));
        assert(hb[i].1 == m[t.take(l)]);
        assert(hb[i] == prefix_hits_bytes(m, t)[i]);
    }
    assert forall|l: int| 1 <= l <= t.len() && m.contains_key(#[trigger] t.take(l)) implies exists|i: int|
        0 <= i < hb.len() && (#[trigger] hb[i]).0 == utf8_len(t.take(l)) && hb[i].1 == m[t.take(l)] by {
        let i = choose|i: int| 0 <= i < h.len() && (#[trigger] h[i]).0 == l;
        assert(hb[i] == (utf8_len(t.take(h[i].0 as int)), h[i].1));
    }
}

pub open spec fn hit_view<'a>(h: (usize, &'a Vec<WordEntry>)) -> (nat, Seq<WordSpec>) {
    (h.0 as nat, entries_view(h.1@))
}

impl TrieNode {
    /// Words whose reading is exactly `reading`.
    pub fn search(&self, reading: &str) -> (r: Option<&Vec<WordEntry>>)
        requires
            self.wf(),
        ensures
            r is Some <==> self.spec_map().contains_key(reading@),
            r matches Some(v) ==> entries_view(v@) == self.spec_map()[reading@],
    {
        let chars = chars_of(reading);
        self.search_chars(&chars)
    }

    pub fn search_chars(&self, chars: &[char]) -> (r: Option<&Vec<WordEntry>>)
        requires
            self.wf(),
        ensures
            r is Some <==> self.spec_map().contains_key(chars@),
            r matches Some(v) ==> entries_view(v@) == self.spec_map()[chars@],
    {
        match self.walk(chars) {
            Some(node) => {
                proof {
                    self.lemma_at(node as int);
                }
                if self.slots[node].is_end {
                    Some(&self.slots[node].entries)
                } else {
                    None
                }
            },
            None => {
                proof {
                    if self.spec_map().contains_key(chars@) {
                        let i = choose|i: int| 0 <= i < self.n() && #[trigger] self.key(i) == chars@ && self.ended(i);
                    }
                }
                None
            },
        }
    }

    /// Readings that are prefixes of `t[start..]`, with their length in
    /// characters and in bytes.
    pub fn prefix_walk(&self, t: &[char], start: usize) -> (r: Vec<(usize, usize, &Vec<WordEntry>)>)
        requires
            self.wf(),
            start <= t.len(),
            utf8_len(t@.skip(start as int)) <= usize::MAX,
        ensures
            r@.map_values(|h: (usize, usize, &Vec<WordEntry>)| (h.0 as nat, entries_view(h.2@)))
                == prefix_hits(self.spec_map(), t@.skip(start as int), (t.len() - start) as nat),
            forall|k: int| 0 <= k < r@.len() ==> #[trigger] r@[k].1 == utf8_len(t@.skip(start as int).take(r@[k].0 as int)),
    {
        let ghost u = t@.skip(start as int);
        let ghost m = self.spec_map();
        let mut results: Vec<(usize, usize, &Vec<WordEntry>)> = Vec::new();
        let mut node: usize = 0;
        let mut i: usize = 0;
        let mut bytes: usize = 0;
        let n = t.len() - start;
        while i < n
            invariant
                self.wf(),
                m == self.spec_map(),
                u == t@.skip(start as int),
                n == u.len(),
                start + n == t.len(),
                i <= n,
                node < self.n(),
                self.key(node as int) == u.take(i as int),
                bytes == utf8_len(u.take(i as int)),
                utf8_len(u) <= usize::MAX,
                results@.map_values(|h: (usize, usize, &Vec<WordEntry>)| (h.0 as nat, entries_view(h.2@))) == prefix_hits(m, u, i as nat),
                forall|k: int| 0 <= k < results@.len() ==> #[trigger] results@[k].1 == utf8_len(u.take(results@[k].0 as int)),
            decreases n - i,
        {
            let c = t[start + i];
            assert(c == u[i as int]);
            match self.find_child(node, c) {
                Some(j) => {
                    proof {
                        assert(u.take(i + 1) == u.take(i as int).push(u[i as int]));
                        lemma_utf8_take_step(u, i as int);
                        lemma_utf8_prefix_le(u, i + 1);
                    }
                    let cl = len_utf8(c);
                    bytes = bytes + cl;
                    node = j;
                    i = i + 1;
                    proof {
                        self.lemma_at(node as int);
                    }
                    if self.slots[node].is_end {
                        let ghost before = results@;
                        results.push((i, bytes, &self.slots[node].entries));
                        proof {
                            assert(results@.map_values(|h: (usize, usize, &Vec<WordEntry>)| (h.0 as nat, entries_view(h.2@))) =~= before.map_values(|h: (usize, usize, &Vec<WordEntry>)| (h.0 as nat, entries_view(h.2@))).push((i as nat, m[u.take(i as int)])));
                        }
                    }
                },
                None => {
                    proof {
                        assert forall|l: int| i < l <= n implies !m.contains_key(#[trigger] u.take(l)) by {
                            if m.contains_key(u.take(l)) {
                                let j = choose|j: int| 0 <= j < self.n() && #[trigger] self.key(j) == u.take(l) && self.ended(j);
                                self.lemma_missing_edge(node as int, c, j);
                                assert(u.take(l).take(i + 1) =~= u.take(i as int).push(c));
                            }
                        }
                        lemma_hits_stable(m, u, i as nat, n as nat);
                    }
                    return results;
                },
            }
        }
        results
    }

    /// Readings that are prefixes of `text`, each with its length in bytes
    /// and its words, shortest first.
    pub fn common_prefix_search(&self, text: &str) -> (r: Vec<(usize, &Vec<WordEntry>)>)
        requires
            self.wf(),
        ensures
            r@.map_values(|h: (usize, &Vec<WordEntry>)| (h.0 as nat, entries_view(h.1@))) == prefix_hits_bytes(self.spec_map(), text@),
    {
        let t = chars_of(text);
        let _total = byte_len(text);
        proof {
            assert(t@.skip(0) =~= t@);
        }
        let hits = self.prefix_walk(&t, 0);
        let ghost hv = prefix_hits(self.spec_map(), t@, t@.len());
        let mut out: Vec<(usize, &Vec<WordEntry>)> = Vec::new();
        let mut k: usize = 0;
        while k < hits.len()
            invariant
                k <= hits.len(),
                t@ == text@,
                t@.skip(0) == t@,
                hits@.map_values(|h: (usize, usize, &Vec<WordEntry>)| (h.0 as nat, entries_view(h.2@))) == hv,
                forall|q: int| 0 <= q < hits@.len() ==> #[trigger] hits@[q].1 == utf8_len(t@.skip(0).take(hits@[q].0 as int)),
                out@.len() == k,
                forall|q: int| 0 <= q < k ==> #[trigger] out@[q] == (hits@[q].1, hits@[q].2),
            decreases hits.len() - k,
        {
            out.push((hits[k].1, hits[k].2));
            k += 1;
        }
        proof {
            let lhs = out@.map_values(|h: (usize, &Vec<WordEntry>)| (h.0 as nat, entries_view(h.1@)));
            let rhs = prefix_hits_bytes(self.spec_map(), text@);
            assert forall|q: int| 0 <= q < lhs.len() implies lhs[q] == rhs[q] by {
                assert(out@[q] == (hits@[q].1, hits@[q].2));
                assert(hv[q] == (hits@[q].0 as nat, entries_view(hits@[q].2@)));
            }
            assert(lhs =~= rhs);
        }
        out
    }
}

/// Connection costs between the right context of a word and the left
/// context of the next one.
pub struct ConnectionMatrix {
    /// Number of left context ids.
    pub left_size: u16,
    /// Number of right context ids.
    pub right_size: u16,
    /// Costs, indexed by `right_id * left_size + left_id`.
    pub costs: Vec<i16>,
}

impl ConnectionMatrix {
    /// Index of the cell for `(left_id, right_id)`.
    pub open spec fn cell(&self, left_id: PosId, right_id: PosId) -> int {
        right_id * self.left_size + left_id
    }

    /// The cost stored for `(left_id, right_id)`, 0 outside the table.
    pub open spec fn spec_get(&self, left_id: PosId, right_id: PosId) -> i16 {
        let idx = self.cell(left_id, right_id);
        if idx < self.costs@.len() {
            self.costs@[idx]
        } else {
            0
        }
    }

    /// Matrix of `left_size * right_size` zero costs.
    pub fn new(left_size: u16, right_size: u16) -> (r: Self)
        ensures
            r.left_size == left_size,
            r.right_size == right_size,
            r.costs@.len() == left_size * right_size,
            forall|i: int| 0 <= i < r.costs@.len() ==> r.costs@[i] == 0,
    {
        proof {
            vstd::arithmetic::mul::lemma_mul_upper_bound(left_size as int, 0xFFFF, right_size as int, 0xFFFF);
        }
        let size = (left_size as usize) * (right_size as usize);
        let mut costs: Vec<i16> = Vec::new();
        let mut i: usize = 0;
        while i < size
            invariant
                i <= size,
                costs@.len() == i,
                forall|k: int| 0 <= k < i ==> costs@[k] == 0,
            decreases size - i,
        {
            costs.push(0);
            i += 1;
        }
        ConnectionMatrix { left_size, right_size, costs }
    }

    fn index_of(&self, left_id: PosId, right_id: PosId) -> (r: usize)
        ensures
            r == self.cell(left_id, right_id),
    {
        proof {
            vstd::arithmetic::mul::lemma_mul_upper_bound(right_id as int, 0xFFFF, self.left_size as int, 0xFFFF);
        }
        (right_id as usize) * (self.left_size as usize) + (left_id as usize)
    }

    /// Sets a connection cost; an index outside the table is ignored.
    pub fn set(&mut self, left_id: PosId, right_id: PosId, cost: i16)
        ensures
            final(self).left_size == old(self).left_size,
            final(self).right_size == old(self).right_size,
            final(self).costs@ == if old(self).cell(left_id, right_id) < old(self).costs@.len() {
                old(self).costs@.update(old(self).cell(left_id, right_id), cost)
            } else {
                old(self).costs@
            },
    {
        let idx = self.index_of(left_id, right_id);
        if idx < self.costs.len() {
            self.costs.set(idx, cost);
        }
    }

    /// Connection cost, 0 for an index outside the table.
    pub fn get(&self, left_id: PosId, right_id: PosId) -> (r: i16)
        ensures
            r == self.spec_get(left_id, right_id),
    {
        let idx = self.index_of(left_id, right_id);
        if idx < self.costs.len() {
            self.costs[idx]
        } else {
            0
        }
    }
}

/// The system dictionary: reading trie, connection matrix and the context
/// ids of sentence begin and end.
pub struct Dictionary {
    /// Word trie.
    pub trie: TrieNode,
    /// Connection matrix.
    pub matrix: ConnectionMatrix,
    /// Context id of the sentence begin.
    pub bos_id: PosId,
    /// Context id of the sentence end.
    pub eos_id: PosId,
}

impl Dictionary {
    pub open spec fn wf(&self) -> bool {
        self.trie.wf()
    }

    /// Readings and their words.
    pub open spec fn words(&self) -> Map<Seq<char>, Seq<WordSpec>> {
        self.trie.spec_map()
    }

    /// Empty dictionary with a 1x1 zero matrix and context id 0 for both
    /// sentence ends.
    pub fn new() -> (r: Self)
        ensures
            r.wf(),
            r.words() == Map::<Seq<char>, Seq<WordSpec>>::empty(),
            r.matrix.left_size == 1 && r.matrix.right_size == 1 && r.matrix.costs@ == seq![0i16],
            r.bos_id == 0 && r.eos_id == 0,
    {
        let m = ConnectionMatrix::new(1, 1);
        assert(m.costs@ =~= seq![0i16]);
        Dictionary { trie: TrieNode::new(), matrix: m, bos_id: 0, eos_id: 0 }
    }

    /// Adds a word under its own reading.
    pub fn add_word(&mut self, entry: WordEntry)
        requires
            old(self).wf(),
        ensures
            final(self).wf(),
            final(self).matrix == old(self).matrix,
            final(self).bos_id == old(self).bos_id,
            final(self).eos_id == old(self).eos_id,
            final(self).words() == old(self).words().insert(
                entry.reading@,
                if old(self).words().contains_key(entry.reading@) {
                    old(self).words()[entry.reading@]
                } else {
                    Seq::empty()
                }.push(entry@),
            ),
            filed_by_reading(old(self).words()) ==> filed_by_reading(final(self).words()),
    {
        let ghost k = entry.reading@;
        let ghost e = entry@;
        let reading = chars_of(entry.reading.as_str());
        self.trie.insert_chars(&reading, entry);
        proof {
            let m0 = old(self).words();
            let m1 = self.words();
            if filed_by_reading(m0) {
                assert forall|p: Seq<char>| #[trigger] m1.contains_key(p) implies m1[p].len() > 0 && forall|q: int|
                    0 <= q < m1[p].len() ==> (#[trigger] m1[p][q]).reading == p by {
                    if p == k {
                        let prev = if m0.contains_key(k) { m0[k] } else { Seq::<WordSpec>::empty() };
                        assert(m1[p] == prev.push(e));
                        assert forall|q: int| 0 <= q < m1[p].len() implies (#[trigger] m1[p][q]).reading == p by {
                            if q < prev.len() {
                                assert(m1[p][q] == prev[q]);
                            }
                        }
                    } else {
                        assert(m0.contains_key(p) && m1[p] == m0[p]);
                    }
                }
            }
        }
    }

    /// Words whose reading is exactly `reading`.
    pub fn lookup(&self, reading: &str) -> (r: Option<&Vec<WordEntry>>)
        requires
            self.wf(),
        ensures
            r is Some <==> self.words().contains_key(reading@),
            r matches Some(v) ==> entries_view(v@) == self.words()[reading@],
    {
        self.trie.search(reading)
    }

    /// Words whose readings are prefixes of `text`, with the prefix length in
    /// bytes, shortest first.
    pub fn common_prefix_search(&self, text: &str) -> (r: Vec<(usize, &Vec<WordEntry>)>)
        requires
            self.wf(),
        ensures
            r@.map_values(|h: (usize, &Vec<WordEntry>)| (h.0 as nat, entries_view(h.1@))) == prefix_hits_bytes(self.words(), text@),
            forall|i: int, j: int| 0 <= i < j < r@.len() ==> (#[trigger] r@[i]).0 < (#[trigger] r@[j]).0,
            forall|i: int| 0 <= i < r@.len() ==> hit_of_prefix(self.words(), text@, (#[trigger] r@[i].0 as nat, entries_view(r@[i].1@))),
            forall|l: int| 1 <= l <= text@.len() && self.words().contains_key(#[trigger] text@.take(l)) ==> exists|i: int|
                0 <= i < r@.len() && (#[trigger] r@[i]).0 == utf8_len(text@.take(l)) && entries_view(r@[i].1@)
                    == self.words()[text@.take(l)],
    {
        let r = self.trie.common_prefix_search(text);
        proof {
            let m = self.words();
            let t = text@;
            law_prefix_hits(m, t);
            let hb = prefix_hits_bytes(m, t);
            let rv = r@.map_values(|h: (usize, &Vec<WordEntry>)| (h.0 as nat, entries_view(h.1@)));
            assert forall|i: int| 0 <= i < r@.len() implies #[trigger] hb[i] == (r@[i].0 as nat, entries_view(r@[i].1@)) by {
                assert(rv[i] == (r@[i].0 as nat, entries_view(r@[i].1@)));
            }
            assert forall|i: int, j: int| 0 <= i < j < r@.len() implies (#[trigger] r@[i]).0 < (#[trigger] r@[j]).0 by {
                assert(hb[i].0 < hb[j].0);
            }
            assert forall|i: int| 0 <= i < r@.len() implies hit_of_prefix(m, t, (#[trigger] r@[i].0 as nat, entries_view(r@[i].1@))) by {
                assert(hit_of_prefix(m, t, hb[i]));
            }
            assert forall|l: int| 1 <= l <= t.len() && m.contains_key(#[trigger] t.take(l)) implies exists|i: int|
                0 <= i < r@.len() && (#[trigger] r@[i]).0 == utf8_len(t.take(l)) && entries_view(r@[i].1@) == m[t.take(l)] by {
                let i = choose|i: int| 0 <= i < hb.len() && (#[trigger] hb[i]).0 == utf8_len(t.take(l)) && hb[i].1 == m[t.take(l)];
                assert(hb[i] == (r@[i].0 as nat, entries_view(r@[i].1@)));
            }
        }
        r
    }
}

/// Character classes used for unknown words.
#[derive(PartialEq, Eq, Structural, Clone, Copy, Debug)]
pub enum CharCategory {
    /// Hiragana.
    Hiragana,
    /// Katakana.
    Katakana,
    /// Kanji.
    Kanji,
    /// ASCII letters.
    Ascii,
    /// Digits.
    Digit,
    /// ASCII punctuation.
    Symbol,
    /// Anything else.
    Other,
}

pub open spec fn in_range(c: char, lo: u32, hi: u32) -> bool {
    lo <= (c as u32) && (c as u32) <= hi
}

/// ASCII punctuation (`char::is_ascii_punctuation`).
pub open spec fn is_ascii_punct(c: char) -> bool {
    in_range(c, 0x21, 0x2F) || in_range(c, 0x3A, 0x40) || in_range(c, 0x5B, 0x60) || in_range(c, 0x7B, 0x7E)
}

pub open spec fn category_of(ch: char) -> CharCategory {
    if in_range(ch, 0x3041, 0x3096) || in_range(ch, 0x3099, 0x309F) {
        CharCategory::Hiragana
    } else if in_range(ch, 0x30A1, 0x30FA) || in_range(ch, 0x30FC, 0x30FF) {
        CharCategory::Katakana
    } else if in_range(ch, 0x4E00, 0x9FFF) || in_range(ch, 0x3400, 0x4DBF) {
        CharCategory::Kanji
    } else if in_range(ch, 0x41, 0x5A) || in_range(ch, 0x61, 0x7A) {
        CharCategory::Ascii
    } else if in_range(ch, 0x30, 0x39) {
        CharCategory::Digit
    } else if is_ascii_punct(ch) {
        CharCategory::Symbol
    } else {
        CharCategory::Other
    }
}

impl CharCategory {
    /// The class of a character.
    pub fn of(ch: char) -> (r: CharCategory)
        ensures
            r == category_of(ch),
    {
        let u = ch as u32;
        if (0x3041 <= u && u <= 0x3096) || (0x3099 <= u && u <= 0x309F) {
            CharCategory::Hiragana
        } else if (0x30A1 <= u && u <= 0x30FA) || (0x30FC <= u && u <= 0x30FF) {
            CharCategory::Katakana
        } else if (0x4E00 <= u && u <= 0x9FFF) || (0x3400 <= u && u <= 0x4DBF) {
            CharCategory::Kanji
        } else if (0x41 <= u && u <= 0x5A) || (0x61 <= u && u <= 0x7A) {
            CharCategory::Ascii
        } else if 0x30 <= u && u <= 0x39 {
            CharCategory::Digit
        } else if (0x21 <= u && u <= 0x2F) || (0x3A <= u && u <= 0x40) || (0x5B <= u && u <= 0x60)
            || (0x7B <= u && u <= 0x7E) {
            CharCategory::Symbol
        } else {
            CharCategory::Other
        }
    }
}

/// Words of `ws` whose surface is not `surface`, in order.
pub open spec fn drop_surface(ws: Seq<WordSpec>, surface: Seq<char>) -> Seq<WordSpec>
    decreases ws.len(),
{
    if ws.len() == 0 {
        ws
    } else {
        let p = drop_surface(ws.drop_last(), surface);
        if ws.last().surface == surface {
            p
        } else {
            p.push(ws.last())
        }
    }
}

/// The map after removing the words with `surface` from `reading`; a reading
/// left without words disappears.
pub open spec fn map_after_remove(m: Map<Seq<char>, Seq<WordSpec>>, reading: Seq<char>, surface: Seq<char>) -> Map<Seq<char>, Seq<WordSpec>> {
    if m.contains_key(reading) {
        let f = drop_surface(m[reading], surface);
        if f.len() == 0 {
            m.remove(reading)
        } else {
            m.insert(reading, f)
        }
    } else {
        m
    }
}

pub open spec fn removes_some(m: Map<Seq<char>, Seq<WordSpec>>, reading: Seq<char>, surface: Seq<char>) -> bool {
    m.contains_key(reading) && drop_surface(m[reading], surface).len() < m[reading].len()
}

proof fn lemma_drop_surface_len(ws: Seq<WordSpec>, surface: Seq<char>)
    ensures
        drop_surface(ws, surface).len() <= ws.len(),
    decreases ws.len(),
{
    if ws.len() > 0 {
        lemma_drop_surface_len(ws.drop_last(), surface);
    }
}

impl TrieNode {
    /// Relates the maps of two tries that differ only in the words of one node.
    proof fn lemma_map_one_node(before: &Self, after: &Self, node: int)
        requires
            before.wf(),
            after.wf(),
            0 <= node < before.n(),
            after.n() == before.n(),
            forall|m: int| 0 <= m < before.n() ==> after.key(m) == before.key(m),
            forall|m: int| 0 <= m < before.n() && m != node ==> after.ended(m) == before.ended(m) && after.slot_entries(m) == before.slot_entries(m),
        ensures
            after.ended(node) ==> after.spec_map() == before.spec_map().insert(before.key(node), after.slot_entries(node)),
            !after.ended(node) ==> after.spec_map() == before.spec_map().remove(before.key(node)),
    {
        let k = before.key(node);
        let target = if after.ended(node) {
            before.spec_map().insert(k, after.slot_entries(node))
        } else {
            before.spec_map().remove(k)
        };
        assert forall|p: Seq<char>| #[trigger] after.spec_map().contains_key(p) == target.contains_key(p) && (after.spec_map().contains_key(p) ==> after.spec_map()[p] == target[p]) by {
            after.lemma_at(node);
            before.lemma_at(node);
            if p != k {
                if after.spec_map().contains_key(p) {
                    let m = choose|m: int| 0 <= m < after.n() && #[trigger] after.key(m) == p && after.ended(m);
                    after.lemma_at(m);
                    before.lemma_at(m);
                }
                if before.spec_map().contains_key(p) {
                    let m = choose|m: int| 0 <= m < before.n() && #[trigger] before.key(m) == p && before.ended(m);
                    after.lemma_at(m);
                    before.lemma_at(m);
                }
            }
        }
        assert(after.spec_map() =~= target);
    }

    /// Removes the words with `surface` from `reading`; tells whether any
    /// word was removed.
    pub fn remove(&mut self, reading: &[char], surface: &[char]) -> (removed: bool)
        requires
            old(self).wf(),
        ensures
            final(self).wf(),
            removed == removes_some(old(self).spec_map(), reading@, surface@),
            final(self).spec_map() == map_after_remove(old(self).spec_map(), reading@, surface@),
    {
        let ghost m0 = self.spec_map();
        match self.walk(reading) {
            None => {
                proof {
                    if m0.contains_key(reading@) {
                        let i = choose|i: int| 0 <= i < self.n() && #[trigger] self.key(i) == reading@ && self.ended(i);
                    }
                }
                false
            },
            Some(node) => {
                proof {
                    self.lemma_at(node as int);
                }
                if !self.slots[node].is_end {
                    return false;
                }
                let ghost before = *self;
                let mut kept: Vec<WordEntry> = Vec::new();
                let mut k: usize = 0;
                let n_entries = self.slots[node].entries.len();
                while k < n_entries
                    invariant
                        *self == before,
                        before.wf(),
                        node < before.n(),
                        n_entries == before.slots@[node as int].entries@.len(),
                        k <= n_entries,
                        entries_view(kept@) == drop_surface(entries_view(before.slots@[node as int].entries@.take(k as int)), surface@),
                    decreases n_entries - k,
                {
                    let e = &self.slots[node].entries[k];
                    let es = chars_of(e.surface.as_str());
                    let ghost ws = entries_view(before.slots@[node as int].entries@.take(k + 1));
                    assert(before.slots@[node as int].entries@.take(k + 1).drop_last() =~= before.slots@[node as int].entries@.take(k as int));
                    assert(ws.drop_last() =~= entries_view(before.slots@[node as int].entries@.take(k as int)));
                    assert(ws.last() == e@);
                    if !chars_eq(es.as_slice(), surface) {
                        let c = e.clone();
                        kept.push(c);
                        assert(entries_view(kept@) =~= drop_surface(ws.drop_last(), surface@).push(e@));
                    }
                    k += 1;
                }
                assert(before.slots@[node as int].entries@.take(n_entries as int) =~= before.slots@[node as int].entries@);
                proof {
                    lemma_drop_surface_len(before.slot_entries(node as int), surface@);
                }
                let removed = kept.len() < n_entries;
                let now_empty = kept.len() == 0;
                let ghost kept_view = kept@;
                self.slots[node].entries = kept;
                if now_empty {
                    self.slots[node].is_end = false;
                }
                proof {
                    assert forall|a: int| 0 <= a < self.n() && a != node implies self.slots@[a] == before.slots@[a] by {}
                    assert(self.wf()) by {
                        assert forall|a: int, q: int| 0 <= a < self.n() && 0 <= q < self.nkids(a) implies ({
                            let ch = #[trigger] self.child(a, q);
                            &&& 0 < ch.1 < self.n()
                            &&& self.key(ch.1 as int) == self.key(a).push(ch.0)
                        }) by {
                            assert(self.child(a, q) == before.child(a, q));
                        }
                        assert forall|a: int, k1: int, k2: int|
                            0 <= a < self.n() && 0 <= k1 < self.nkids(a) && 0 <= k2 < self.nkids(a) && k1 != k2
                            implies #[trigger] self.child(a, k1).0 != #[trigger] self.child(a, k2).0 by {
                            assert(self.child(a, k1) == before.child(a, k1));
                            assert(self.child(a, k2) == before.child(a, k2));
                        }
                        assert forall|b: int| 0 < b < self.n() implies ({
                            let pk = #[trigger] self.parent@[b];
                            &&& 0 <= pk.0 < self.n()
                            &&& 0 <= pk.1 < self.nkids(pk.0)
                            &&& self.child(pk.0, pk.1).1 == b
                        }) by {
                            let pk = before.parent@[b];
                            assert(self.child(pk.0, pk.1) == before.child(pk.0, pk.1));
                        }
                        assert forall|a: int, b: int| 0 <= a < self.n() && 0 <= b < self.n() && a != b implies #[trigger] self.key(a) != #[trigger] self.key(b) by {
                            assert(self.key(a) == before.key(a));
                            assert(self.key(b) == before.key(b));
                        }
                        assert forall|a: int| 0 <= a < self.n() && !self.ended(a) implies self.slots@[a].entries@.len() == 0 by {
                            if a != node {
                                assert(self.slots@[a] == before.slots@[a]);
                                assert(!before.ended(a));
                                assert(before.slots@[a].entries@.len() == 0);
                            } else {
                                assert(self.slots@[a].entries@ == kept_view);
                                assert(now_empty);
                                assert(kept_view.len() == 0);
                            }
                        }
                    }
                    TrieNode::lemma_map_one_node(&before, self, node as int);
                    assert(self.spec_map() =~= map_after_remove(m0, reading@, surface@));
                }
                removed
            },
        }
    }

    /// Every word held by the trie, reading by reading.
    pub fn all_words(&self) -> (r: Vec<WordEntry>)
        requires
            self.wf(),
        ensures
            entries_view(r@) == self.word_list(),
            forall|w: WordSpec| entries_view(r@).contains(w) <==> exists|p: Seq<char>| #[trigger] self.spec_map().contains_key(p) && self.spec_map()[p].contains(w),
    {
        let mut out: Vec<WordEntry> = Vec::new();
        let mut i: usize = 0;
        while i < self.slots.len()
            invariant
                self.wf(),
                i <= self.n(),
                entries_view(out@) == self.words_upto(i as int),
                forall|w: WordSpec| entries_view(out@).contains(w) <==> exists|m: int| 0 <= m < i && self.ended(m) && #[trigger] self.slot_entries(m).contains(w),
            decreases self.n() - i,
        {
            if self.slots[i].is_end {
                let es = &self.slots[i].entries;
                let mut k: usize = 0;
                let ghost base = entries_view(out@);
                while k < es.len()
                    invariant
                        self.wf(),
                        i < self.n(),
                        es@ == self.slots@[i as int].entries@,
                        k <= es.len(),
                        entries_view(out@) == base + entries_view(es@.take(k as int)),
                    decreases es.len() - k,
                {
                    let c = es[k].clone();
                    let ghost prev_view = entries_view(out@);
                    out.push(c);
                    assert(entries_view(out@) =~= prev_view.push(es@[k as int]@));
                    assert(es@.take(k + 1) =~= es@.take(k as int).push(es@[k as int]));
                    assert(entries_view(es@.take(k + 1)) =~= entries_view(es@.take(k as int)).push(es@[k as int]@));
                    assert(entries_view(out@) =~= base + entries_view(es@.take(k + 1)));
                    k += 1;
                }
                assert(es@.take(es.len() as int) =~= es@);
                assert(entries_view(out@) =~= self.words_upto(i + 1));
                proof {
                    assert forall|w: WordSpec| entries_view(out@).contains(w) <==> exists|m: int| 0 <= m < i + 1 && self.ended(m) && #[trigger] self.slot_entries(m).contains(w) by {
                        if entries_view(out@).contains(w) {
                            let q = choose|q: int| 0 <= q < entries_view(out@).len() && entries_view(out@)[q] == w;
                            if q < base.len() {
                                assert(base[q] == w);
                                assert(base.contains(w));
                            } else {
                                assert(self.slot_entries(i as int)[q - base.len()] == w);
                                assert(self.slot_entries(i as int).contains(w));
                            }
                        }
                        if exists|m: int| 0 <= m < i + 1 && self.ended(m) && #[trigger] self.slot_entries(m).contains(w) {
                            let m = choose|m: int| 0 <= m < i + 1 && self.ended(m) && #[trigger] self.slot_entries(m).contains(w);
                            if m < i {
                                assert(base.contains(w));
                                let q = choose|q: int| 0 <= q < base.len() && base[q] == w;
                                assert(entries_view(out@)[q] == w);
                            } else {
                                let q = choose|q: int| 0 <= q < self.slot_entries(m).len() && self.slot_entries(m)[q] == w;
                                assert(entries_view(out@)[base.len() + q] == w);
                            }
                        }
                    }
                }
            } else {
                assert(entries_view(out@) =~= self.words_upto(i + 1));
            }
            i += 1;
        }
        proof {
            assert forall|w: WordSpec| entries_view(out@).contains(w) <==> exists|p: Seq<char>| #[trigger] self.spec_map().contains_key(p) && self.spec_map()[p].contains(w) by {
                if entries_view(out@).contains(w) {
                    let m = choose|m: int| 0 <= m < self.n() && self.ended(m) && #[trigger] self.slot_entries(m).contains(w);
                    self.lemma_at(m);
                    assert(self.spec_map().contains_key(self.key(m)));
                }
                if exists|p: Seq<char>| #[trigger] self.spec_map().contains_key(p) && self.spec_map()[p].contains(w) {
                    let p = choose|p: Seq<char>| #[trigger] self.spec_map().contains_key(p) && self.spec_map()[p].contains(w);
                    let m = choose|m: int| 0 <= m < self.n() && #[trigger] self.key(m) == p && self.ended(m);
                    self.lemma_at(m);
                    assert(self.slot_entries(m).contains(w));
                }
            }
        }
        out
    }

    /// Readings at edit distance at most `max_dist` from `word`, each with
    /// its distance.
    pub fn fuzzy_readings(&self, word: &[char], max_dist: usize) -> (r: Vec<(Vec<char>, usize)>)
        requires
            self.wf(),
            word.len() + max_dist < usize::MAX / 2,
        ensures
            forall|k: int| 0 <= k < r@.len() ==> {
                let h = #[trigger] r@[k];
                &&& self.spec_map().contains_key(h.0@)
                &&& h.1 == edit_distance(word@, h.0@)
                &&& h.1 <= max_dist
            },
            forall|p: Seq<char>| self.spec_map().contains_key(p) && edit_distance(word@, p) <= max_dist ==> exists|k: int| 0 <= k < r@.len() && (#[trigger] r@[k]).0@ == p,
    {
        let mut out: Vec<(Vec<char>, usize)> = Vec::new();
        let mut i: usize = 0;
        while i < self.slots.len()
            invariant
                self.wf(),
                i <= self.n(),
                word.len() + max_dist < usize::MAX / 2,
                forall|k: int| 0 <= k < out@.len() ==> {
                    let h = #[trigger] out@[k];
                    &&& self.spec_map().contains_key(h.0@)
                    &&& h.1 == edit_distance(word@, h.0@)
                    &&& h.1 <= max_dist
                },
                forall|m: int| 0 <= m < i && self.ended(m) && edit_distance(word@, self.key(m)) <= max_dist ==> exists|k: int| 0 <= k < out@.len() && (#[trigger] out@[k]).0@ == self.key(m),
            decreases self.n() - i,
        {
            proof {
                self.lemma_at(i as int);
                lemma_distance_len_gap(word@, self.key(i as int));
            }
            let key = &self.slots[i].key;
            let ghost old_out = out@;
            if self.slots[i].is_end && key.len() <= word.len() + max_dist && word.len() <= key.len() + max_dist {
                let d = edit_distance_chars(word, key.as_slice());
                if d <= max_dist {
                    let kc = vec_from_range(key.as_slice(), 0, key.len());
                    assert(key@.subrange(0, key.len() as int) =~= key@);
                    out.push((kc, d));
                    assert(out@[out@.len() - 1].0@ == self.key(i as int));
                }
            }
            proof {
                assert forall|m: int| 0 <= m < i + 1 && self.ended(m) && edit_distance(word@, self.key(m)) <= max_dist implies exists|k: int| 0 <= k < out@.len() && (#[trigger] out@[k]).0@ == self.key(m) by {
                    if m < i {
                        let k = choose|k: int| 0 <= k < old_out.len() && (#[trigger] old_out[k]).0@ == self.key(m);
                        assert(out@[k] == old_out[k]);
                    } else {
                        assert(out@[out@.len() - 1].0@ == self.key(i as int));
                    }
                }
                assert forall|k: int| 0 <= k < out@.len() implies {
                    let h = #[trigger] out@[k];
                    &&& self.spec_map().contains_key(h.0@)
                    &&& h.1 == edit_distance(word@, h.0@)
                    &&& h.1 <= max_dist
                } by {
                    if k < old_out.len() {
                        assert(out@[k] == old_out[k]);
                    }
                }
            }
            i += 1;
        }
        proof {
            assert forall|p: Seq<char>| self.spec_map().contains_key(p) && edit_distance(word@, p) <= max_dist implies exists|k: int| 0 <= k < out@.len() && (#[trigger] out@[k]).0@ == p by {
                let m = choose|m: int| 0 <= m < self.n() && #[trigger] self.key(m) == p && self.ended(m);
            }
        }
        out
    }
}

impl Dictionary {
    /// Removes the words with `surface` from `reading`; tells whether any
    /// word was removed.
    pub fn remove_word(&mut self, reading: &str, surface: &str) -> (removed: bool)
        requires
            old(self).wf(),
        ensures
            final(self).wf(),
            final(self).matrix == old(self).matrix,
            final(self).bos_id == old(self).bos_id,
            final(self).eos_id == old(self).eos_id,
            removed == removes_some(old(self).words(), reading@, surface@),
            final(self).words() == map_after_remove(old(self).words(), reading@, surface@),
    {
        let r = chars_of(reading);
        let s = chars_of(surface);
        self.trie.remove(&r, &s)
    }

    /// Readings within edit distance `max_dist` of `word`, with the distance.
    pub fn fuzzy_readings(&self, word: &str, max_dist: usize) -> (r: Vec<(String, usize)>)
        requires
            self.wf(),
            word@.len() + max_dist < usize::MAX / 2,
        ensures
            forall|k: int| 0 <= k < r@.len() ==> {
                let h = #[trigger] r@[k];
                &&& self.words().contains_key(h.0@)
                &&& h.1 == edit_distance(word@, h.0@)
                &&& h.1 <= max_dist
            },
            forall|p: Seq<char>| self.words().contains_key(p) && edit_distance(word@, p) <= max_dist ==> exists|k: int| 0 <= k < r@.len() && (#[trigger] r@[k]).0@ == p,
    {
        let w = chars_of(word);
        let hits = self.trie.fuzzy_readings(&w, max_dist);
        let mut out: Vec<(String, usize)> = Vec::new();
        let mut k: usize = 0;
        while k < hits.len()
            invariant
                k <= hits.len(),
                out@.len() == k,
                forall|q: int| 0 <= q < k ==> (#[trigger] out@[q]).0@ == hits@[q].0@ && out@[q].1 == hits@[q].1,
            decreases hits.len() - k,
        {
            let s = string_from_chars(hits[k].0.as_slice());
            out.push((s, hits[k].1));
            k += 1;
        }
        proof {
            assert forall|p: Seq<char>| self.words().contains_key(p) && edit_distance(word@, p) <= max_dist implies exists|q: int| 0 <= q < out@.len() && (#[trigger] out@[q]).0@ == p by {
                let q = choose|q: int| 0 <= q < hits@.len() && (#[trigger] hits@[q]).0@ == p;
                assert(out@[q].0@ == p);
            }
        }
        out
    }

    /// Every word of the dictionary, reading by reading.
    pub fn all_words(&self) -> (r: Vec<WordEntry>)
        requires
            self.wf(),
        ensures
            entries_view(r@) == self.trie.word_list(),
            forall|w: WordSpec| entries_view(r@).contains(w) <==> exists|p: Seq<char>| #[trigger] self.words().contains_key(p) && self.words()[p].contains(w),
    {
        let r = self.trie.all_words();
        proof {
            assert forall|w: WordSpec| entries_view(r@).contains(w) <==> exists|p: Seq<char>| #[trigger] self.words().contains_key(p) && self.words()[p].contains(w) by {
                if exists|p: Seq<char>| #[trigger] self.words().contains_key(p) && self.words()[p].contains(w) {
                    let p = choose|p: Seq<char>| #[trigger] self.words().contains_key(p) && self.words()[p].contains(w);
                    assert(self.trie.spec_map().contains_key(p));
                }
                if entries_view(r@).contains(w) {
                    let p = choose|p: Seq<char>| #[trigger] self.trie.spec_map().contains_key(p) && self.trie.spec_map()[p].contains(w);
                    assert(self.words().contains_key(p));
                }
            }
        }
        r
    }
}

/// The words of a dictionary after adding `ws` to `m` in order, each under
/// its own reading.
pub open spec fn words_after(m: Map<Seq<char>, Seq<WordSpec>>, ws: Seq<WordSpec>) -> Map<Seq<char>, Seq<WordSpec>>
    decreases ws.len(),
{
    if ws.len() == 0 {
        m
    } else {
        let prev = words_after(m, ws.drop_last());
        let e = ws.last();
        prev.insert(e.reading, if prev.contains_key(e.reading) {
            prev[e.reading]
        } else {
            Seq::empty()
        }.push(e))
    }
}

/// Every reading has words, and they are words of that reading.
pub open spec fn filed_by_reading(m: Map<Seq<char>, Seq<WordSpec>>) -> bool {
    forall|p: Seq<char>|
        #[trigger] m.contains_key(p) ==> m[p].len() > 0 && forall|k: int| 0 <= k < m[p].len() ==> (#[trigger] m[p][k]).reading == p
}

proof fn lemma_words_after_concat(m: Map<Seq<char>, Seq<WordSpec>>, a: Seq<WordSpec>, b: Seq<WordSpec>)
    ensures
        words_after(m, a + b) == words_after(words_after(m, a), b),
    decreases b.len(),
{
    if b.len() == 0 {
        assert(a + b =~= a);
    } else {
        lemma_words_after_concat(m, a, b.drop_last());
        assert((a + b).drop_last() =~= a + b.drop_last());
        assert((a + b).last() == b.last());
    }
}

proof fn lemma_words_after_group(m: Map<Seq<char>, Seq<WordSpec>>, k: Seq<char>, es: Seq<WordSpec>)
    requires
        !m.contains_key(k),
        es.len() > 0,
        forall|i: int| 0 <= i < es.len() ==> (#[trigger] es[i]).reading == k,
    ensures
        words_after(m, es) == m.insert(k, es),
    decreases es.len(),
{
    if es.len() == 1 {
        assert(es.drop_last() =~= Seq::<WordSpec>::empty());
        assert(words_after(m, es.drop_last()) == m);
        assert(es.last() == es[0]);
        assert(es.last().reading == k);
        assert(Seq::<WordSpec>::empty().push(es.last()) =~= es);
        assert(words_after(m, es) == m.insert(k, Seq::<WordSpec>::empty().push(es.last())));
    } else {
        let d = es.drop_last();
        assert forall|i: int| 0 <= i < d.len() implies (#[trigger] d[i]).reading == k by {
            assert(d[i] == es[i]);
        }
        lemma_words_after_group(m, k, d);
        assert(es.last() == es[es.len() - 1]);
        assert(es.last().reading == k);
        assert(words_after(m, d) == m.insert(k, d));
        assert(words_after(m, es) == m.insert(k, d).insert(k, d.push(es.last())));
        assert(d.push(es.last()) =~= es);
        assert(m.insert(k, d).insert(k, d.push(es.last())) =~= m.insert(k, es));
    }
}

impl TrieNode {
    /// The readings of the first `n` nodes and their words.
    closed spec fn prefix_map(&self, n: int) -> Map<Seq<char>, Seq<WordSpec>> {
        Map::new(
            |p: Seq<char>| exists|i: int| 0 <= i < n && #[trigger] self.key(i) == p && self.ended(i),
            |p: Seq<char>|
                {
                    let i = choose|i: int| 0 <= i < n && #[trigger] self.key(i) == p && self.ended(i);
                    self.slot_entries(i)
                },
        )
    }

    proof fn lemma_prefix_step(&self, n: int)
        requires
            self.wf(),
            0 <= n < self.n(),
        ensures
            self.ended(n) ==> self.prefix_map(n + 1) == self.prefix_map(n).insert(self.key(n), self.slot_entries(n)),
            !self.ended(n) ==> self.prefix_map(n + 1) == self.prefix_map(n),
            !self.prefix_map(n).contains_key(self.key(n)),
    {
        let a = self.prefix_map(n);
        let b = self.prefix_map(n + 1);
        if a.contains_key(self.key(n)) {
            let i = choose|i: int| 0 <= i < n && #[trigger] self.key(i) == self.key(n) && self.ended(i);
            assert(i != n);
        }
        if self.ended(n) {
            let c = a.insert(self.key(n), self.slot_entries(n));
            assert forall|p: Seq<char>| b.contains_key(p) <==> c.contains_key(p) by {
                if b.contains_key(p) {
                    let i = choose|i: int| 0 <= i < n + 1 && #[trigger] self.key(i) == p && self.ended(i);
                    if i < n {
                        assert(a.contains_key(p));
                    }
                }
                if a.contains_key(p) {
                    let i = choose|i: int| 0 <= i < n && #[trigger] self.key(i) == p && self.ended(i);
                    assert(b.contains_key(p));
                }
                if p == self.key(n) {
                    assert(b.contains_key(p));
                }
            }
            assert forall|p: Seq<char>| b.contains_key(p) implies b[p] == c[p] by {
                let i = choose|i: int| 0 <= i < n + 1 && #[trigger] self.key(i) == p && self.ended(i);
                if p == self.key(n) {
                    assert(i == n);
                } else {
                    let j = choose|j: int| 0 <= j < n && #[trigger] self.key(j) == p && self.ended(j);
                    assert(i == j);
                }
            }
            assert(b =~= c);
        } else {
            assert forall|p: Seq<char>| b.contains_key(p) <==> a.contains_key(p) by {
                if b.contains_key(p) {
                    let i = choose|i: int| 0 <= i < n + 1 && #[trigger] self.key(i) == p && self.ended(i);
                    assert(i < n);
                }
                if a.contains_key(p) {
                    let i = choose|i: int| 0 <= i < n && #[trigger] self.key(i) == p && self.ended(i);
                    assert(b.contains_key(p));
                }
            }
            assert forall|p: Seq<char>| b.contains_key(p) implies b[p] == a[p] by {
                let i = choose|i: int| 0 <= i < n + 1 && #[trigger] self.key(i) == p && self.ended(i);
                let j = choose|j: int| 0 <= j < n && #[trigger] self.key(j) == p && self.ended(j);
                assert(i == j);
            }
            assert(b =~= a);
        }
    }

    proof fn lemma_regroup_upto(&self, n: int)
        requires
            self.wf(),
            filed_by_reading(self.spec_map()),
            0 <= n <= self.n(),
        ensures
            words_after(Map::empty(), self.words_upto(n)) == self.prefix_map(n),
        decreases n,
    {
        if n == 0 {
            assert(self.prefix_map(0) =~= Map::<Seq<char>, Seq<WordSpec>>::empty());
        } else {
            let i = n - 1;
            self.lemma_regroup_upto(i);
            self.lemma_prefix_step(i);
            let x = if self.ended(i) { self.slot_entries(i) } else { Seq::<WordSpec>::empty() };
            lemma_words_after_concat(Map::empty(), self.words_upto(i), x);
            if self.ended(i) {
                self.lemma_at(i);
                let k = self.key(i);
                assert(self.spec_map().contains_key(k));
                assert(self.spec_map()[k] == self.slot_entries(i));
                assert forall|q: int| 0 <= q < x.len() implies (#[trigger] x[q]).reading == k by {
                    assert(self.spec_map()[k][q] == x[q]);
                }
                lemma_words_after_group(self.prefix_map(i), k, x);
            }
        }
    }

    /// Adding the trie's words in the order of its word list, each under its
    /// own reading, rebuilds its readings and words, provided every word is
    /// filed under its own reading.
    pub proof fn lemma_word_list_regroups(&self)
        requires
            self.wf(),
            filed_by_reading(self.spec_map()),
        ensures
            words_after(Map::empty(), self.word_list()) == self.spec_map(),
    {
        self.lemma_regroup_upto(self.n());
        assert(self.prefix_map(self.n()) =~= self.spec_map());
    }
}
} // verus!
