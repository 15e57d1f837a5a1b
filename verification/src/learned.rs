//! Learned score tables: (reading, surface) or (word, word) pairs and single
//! readings, each mapped to a cost reduction.

use vstd::prelude::*;
use crate::text::{chars_of, chars_eq};

verus! {

pub type PairKey = (Seq<char>, Seq<char>);

/// Map built from a list of entries; a later entry for the same key wins.
pub open spec fn pair_map(e: Seq<(PairKey, i32)>) -> Map<PairKey, i32>
    decreases e.len(),
{
    if e.len() == 0 {
        Map::empty()
    } else {
        pair_map(e.drop_last()).insert(e.last().0, e.last().1)
    }
}

pub open spec fn word_map(e: Seq<(Seq<char>, i32)>) -> Map<Seq<char>, i32>
    decreases e.len(),
{
    if e.len() == 0 {
        Map::empty()
    } else {
        word_map(e.drop_last()).insert(e.last().0, e.last().1)
    }
}

proof fn lemma_pair_lookup(e: Seq<(PairKey, i32)>, k: PairKey)
    ensures
        (forall|i: int| 0 <= i < e.len() ==> e[i].0 != k) ==> !pair_map(e).contains_key(k),
        forall|j: int|
            0 <= j < e.len() && e[j].0 == k && (forall|i: int| j < i < e.len() ==> e[i].0 != k)
                ==> pair_map(e).contains_key(k) && pair_map(e)[k] == e[j].1,
    decreases e.len(),
{
    if e.len() > 0 {
        let d = e.drop_last();
        lemma_pair_lookup(d, k);
        assert forall|j: int|
            0 <= j < e.len() && e[j].0 == k && (forall|i: int| j < i < e.len() ==> e[i].0 != k)
            implies pair_map(e).contains_key(k) && pair_map(e)[k] == e[j].1 by {
            if j < e.len() - 1 {
                assert(d[j] == e[j]);
                assert forall|i: int| j < i < d.len() implies d[i].0 != k by {
                    assert(d[i] == e[i]);
                }
            }
        }
        if forall|i: int| 0 <= i < e.len() ==> e[i].0 != k {
            assert forall|i: int| 0 <= i < d.len() implies d[i].0 != k by {
                assert(d[i] == e[i]);
            }
        }
    }
}

proof fn lemma_word_lookup(e: Seq<(Seq<char>, i32)>, k: Seq<char>)
    ensures
        (forall|i: int| 0 <= i < e.len() ==> e[i].0 != k) ==> !word_map(e).contains_key(k),
        forall|j: int|
            0 <= j < e.len() && e[j].0 == k && (forall|i: int| j < i < e.len() ==> e[i].0 != k)
                ==> word_map(e).contains_key(k) && word_map(e)[k] == e[j].1,
    decreases e.len(),
{
    if e.len() > 0 {
        let d = e.drop_last();
        lemma_word_lookup(d, k);
        assert forall|j: int|
            0 <= j < e.len() && e[j].0 == k && (forall|i: int| j < i < e.len() ==> e[i].0 != k)
            implies word_map(e).contains_key(k) && word_map(e)[k] == e[j].1 by {
            if j < e.len() - 1 {
                assert(d[j] == e[j]);
                assert forall|i: int| j < i < d.len() implies d[i].0 != k by {
                    assert(d[i] == e[i]);
                }
            }
        }
        if forall|i: int| 0 <= i < e.len() ==> e[i].0 != k {
            assert forall|i: int| 0 <= i < d.len() implies d[i].0 != k by {
                assert(d[i] == e[i]);
            }
        }
    }
}

/// Keeping the entries whose key passes the test restricts the map to the
/// keys that pass it.
proof fn lemma_pair_filter(e: Seq<(PairKey, i32)>, a: Seq<char>, b: Seq<char>, mode: u8)
    ensures
        pair_map(e.filter(entry_pred(a, b, mode))) == pair_map(e).restrict(pair_map(e).dom().filter(key_pred(a, b, mode))),
    decreases e.len(),
{
    reveal_with_fuel(Seq::filter, 1);
    let f = entry_pred(a, b, mode);
    let keep = key_pred(a, b, mode);
    if e.len() > 0 {
        let d = e.drop_last();
        let x = e.last();
        lemma_pair_filter(d, a, b, mode);
        assert(e.filter(f) == if f(x) { d.filter(f).push(x) } else { d.filter(f) });
        assert(f(x) == keep(x.0));
        if keep(x.0) {
            assert(d.filter(f).push(x).drop_last() =~= d.filter(f));
            assert(d.filter(f).push(x).last() == x);
            assert(pair_map(d.filter(f).push(x)) == pair_map(d.filter(f)).insert(x.0, x.1));
            assert(pair_map(e.filter(f)) =~= pair_map(e).restrict(pair_map(e).dom().filter(keep)));
        } else {
            assert(pair_map(e.filter(f)) =~= pair_map(e).restrict(pair_map(e).dom().filter(keep)));
        }
    } else {
        assert(pair_map(e.filter(f)) =~= pair_map(e).restrict(pair_map(e).dom().filter(keep)));
    }
}

proof fn lemma_word_filter(e: Seq<(Seq<char>, i32)>, keep: spec_fn(Seq<char>) -> bool)
    ensures
        word_map(e.filter(|x: (Seq<char>, i32)| keep(x.0))) == word_map(e).restrict(
            word_map(e).dom().filter(keep),
        ),
    decreases e.len(),
{
    reveal_with_fuel(Seq::filter, 1);
    let f = |x: (Seq<char>, i32)| keep(x.0);
    if e.len() > 0 {
        let d = e.drop_last();
        let x = e.last();
        lemma_word_filter(d, keep);
        assert(e.filter(f) == if f(x) { d.filter(f).push(x) } else { d.filter(f) });
        assert(f(x) == keep(x.0));
        if keep(x.0) {
            assert(d.filter(f).push(x).drop_last() =~= d.filter(f));
            assert(d.filter(f).push(x).last() == x);
            assert(word_map(d.filter(f).push(x)) == word_map(d.filter(f)).insert(x.0, x.1));
            assert(word_map(e.filter(f)) =~= word_map(e).restrict(word_map(e).dom().filter(keep)));
        } else {
            assert(word_map(e.filter(f)) =~= word_map(e).restrict(word_map(e).dom().filter(keep)));
        }
    } else {
        assert(word_map(e.filter(f)) =~= word_map(e).restrict(word_map(e).dom().filter(keep)));
    }
}

/// Scores keyed by a pair of strings.
pub struct PairTable {
    entries: Vec<((Vec<char>, Vec<char>), i32)>,
}

impl View for PairTable {
    type V = Map<PairKey, i32>;

    closed spec fn view(&self) -> Map<PairKey, i32> {
        pair_map(self.seq())
    }
}

impl PairTable {
    closed spec fn seq(&self) -> Seq<(PairKey, i32)> {
        self.entries@.map_values(|x: ((Vec<char>, Vec<char>), i32)| ((x.0.0@, x.0.1@), x.1))
    }

    /// Empty table.
    pub fn new() -> (r: Self)
        ensures
            r@ == Map::<PairKey, i32>::empty(),
    {
        let r = PairTable { entries: Vec::new() };
        assert(r.seq() =~= Seq::<(PairKey, i32)>::empty());
        r
    }

    /// Whether the table holds no key.
    pub fn is_empty(&self) -> (r: bool)
        ensures
            r == (self@.dom() == Set::<PairKey>::empty()),
    {
        let r = self.entries.len() == 0;
        proof {
            if r {
                assert(self.seq() =~= Seq::<(PairKey, i32)>::empty());
                assert(self@.dom() =~= Set::<PairKey>::empty());
            } else {
                let e = self.seq();
                assert(self@.contains_key(e.last().0));
            }
        }
        r
    }

    /// Position of the key `(a, b)`.
    fn find(&self, a: &[char], b: &[char]) -> (r: Option<usize>)
        ensures
            r is Some <==> self@.contains_key((a@, b@)),
            r matches Some(j) ==> j < self.entries@.len() && self.entries@[j as int].1 == self@[(a@, b@)],
    {
        let ghost e = self.seq();
        let ghost k = (a@, b@);
        let mut j: usize = self.entries.len();
        while j > 0
            invariant
                j <= self.entries@.len(),
                e == self.seq(),
                e.len() == self.entries@.len(),
                k == (a@, b@),
                forall|i: int| j <= i < e.len() ==> e[i].0 != k,
            decreases j,
        {
            j -= 1;
            let ent = &self.entries[j];
            if chars_eq(ent.0.0.as_slice(), a) && chars_eq(ent.0.1.as_slice(), b) {
                proof {
                    assert(e[j as int].0 == k);
                    assert(e[j as int].1 == self.entries@[j as int].1);
                    lemma_pair_lookup(e, k);
                }
                return Some(j);
            }
            assert(e[j as int].0 != k);
        }
        proof {
            lemma_pair_lookup(e, k);
        }
        None
    }

    /// Value for the key `(a, b)`.
    pub fn get_chars(&self, a: &[char], b: &[char]) -> (r: Option<i32>)
        ensures
            r == (if self@.contains_key((a@, b@)) {
                Some(self@[(a@, b@)])
            } else {
                None::<i32>
            }),
    {
        match self.find(a, b) {
            Some(j) => Some(self.entries[j].1),
            None => None,
        }
    }

    /// Value for `key`.
    pub fn get(&self, key: &(String, String)) -> (r: Option<&i32>)
        ensures
            r is Some <==> self@.contains_key((key.0@, key.1@)),
            r matches Some(v) ==> *v == self@[(key.0@, key.1@)],
    {
        let a = chars_of(key.0.as_str());
        let b = chars_of(key.1.as_str());
        match self.find(a.as_slice(), b.as_slice()) {
            Some(j) => Some(&self.entries[j].1),
            None => None,
        }
    }

    /// Whether `key` is present.
    pub fn contains_key(&self, key: &(String, String)) -> (r: bool)
        ensures
            r == self@.contains_key((key.0@, key.1@)),
    {
        self.get(key).is_some()
    }

    /// Sets the value of `(a, b)`.
    pub fn insert_chars(&mut self, a: &[char], b: &[char], v: i32)
        ensures
            final(self)@ == old(self)@.insert((a@, b@), v),
    {
        let ghost k = (a@, b@);
        self.remove_chars(a, b);
        let ghost mid = self.seq();
        let av = crate::text::vec_from_range(a, 0, a.len());
        let bv = crate::text::vec_from_range(b, 0, b.len());
        assert(a@.subrange(0, a.len() as int) =~= a@);
        assert(b@.subrange(0, b.len() as int) =~= b@);
        self.entries.push(((av, bv), v));
        assert(self.seq() =~= mid.push((k, v)));
        assert(self.seq().drop_last() =~= mid);
        assert(self@ =~= old(self)@.insert(k, v));
    }

    /// Sets the value of `(a, b)` if the key is absent.
    pub fn insert_if_absent(&mut self, a: &str, b: &str, v: i32)
        ensures
            final(self)@ == if old(self)@.contains_key((a@, b@)) {
                old(self)@
            } else {
                old(self)@.insert((a@, b@), v)
            },
    {
        let av = chars_of(a);
        let bv = chars_of(b);
        if self.get_chars(av.as_slice(), bv.as_slice()).is_none() {
            self.insert_chars(av.as_slice(), bv.as_slice(), v);
        }
    }

    /// Sets the value of `(a, b)`.
    pub fn insert_str(&mut self, a: &str, b: &str, v: i32)
        ensures
            final(self)@ == old(self)@.insert((a@, b@), v),
    {
        let av = chars_of(a);
        let bv = chars_of(b);
        self.insert_chars(av.as_slice(), bv.as_slice(), v);
    }

    /// Keeps the entries whose key passes `keep_pair(_, a, b, mode)`.
    fn retain_where(&mut self, a: &[char], b: &[char], mode: u8)
        requires
            mode <= 3,
        ensures
            final(self)@ == old(self)@.restrict(old(self)@.dom().filter(key_pred(a@, b@, mode))),
    {
        let ghost e = self.seq();
        let mut out: Vec<((Vec<char>, Vec<char>), i32)> = Vec::new();
        let mut i: usize = 0;
        while i < self.entries.len()
            invariant
                mode <= 3,
                e == self.seq(),
                e.len() == self.entries@.len(),
                i <= self.entries@.len(),
                out@.map_values(|x: ((Vec<char>, Vec<char>), i32)| ((x.0.0@, x.0.1@), x.1)) == e.take(i as int).filter(entry_pred(a@, b@, mode)),
            decreases self.entries@.len() - i,
        {
            let ent = &self.entries[i];
            let m0 = chars_eq(ent.0.0.as_slice(), a);
            let m1 = chars_eq(ent.0.1.as_slice(), a);
            let kept = if mode == 0 {
                !m0
            } else if mode == 1 {
                !m1
            } else if mode == 2 {
                !m0 && !m1
            } else {
                !(m0 && chars_eq(ent.0.1.as_slice(), b))
            };
            proof {
                reveal_with_fuel(Seq::filter, 1);
                assert(e.take(i + 1).drop_last() =~= e.take(i as int));
                assert(e.take(i + 1).last() == e[i as int]);
                assert(kept == entry_pred(a@, b@, mode)(e[i as int]));
            }
            let ghost before = out@;
            if kept {
                let a0 = crate::text::vec_from_range(ent.0.0.as_slice(), 0, ent.0.0.len());
                let a1 = crate::text::vec_from_range(ent.0.1.as_slice(), 0, ent.0.1.len());
                assert(ent.0.0@.subrange(0, ent.0.0.len() as int) =~= ent.0.0@);
                assert(ent.0.1@.subrange(0, ent.0.1.len() as int) =~= ent.0.1@);
                out.push(((a0, a1), ent.1));
                assert(out@.map_values(|x: ((Vec<char>, Vec<char>), i32)| ((x.0.0@, x.0.1@), x.1)) =~= before.map_values(|x: ((Vec<char>, Vec<char>), i32)| ((x.0.0@, x.0.1@), x.1)).push(e[i as int]));
            }
            i += 1;
        }
        assert(e.take(e.len() as int) =~= e);
        self.entries = out;
        proof {
            lemma_pair_filter(e, a@, b@, mode);
        }
    }

    fn remove_chars(&mut self, a: &[char], b: &[char])
        ensures
            final(self)@ == old(self)@.remove((a@, b@)),
    {
        self.retain_where(a, b, 3);
        assert(old(self)@.restrict(old(self)@.dom().filter(key_pred(a@, b@, 3))) =~= old(self)@.remove((a@, b@)));
    }

    /// Removes the key `(a, b)`.
    pub fn remove_str(&mut self, a: &str, b: &str)
        ensures
            final(self)@ == old(self)@.remove((a@, b@)),
    {
        let av = chars_of(a);
        let bv = chars_of(b);
        self.remove_chars(av.as_slice(), bv.as_slice());
    }

    /// Removes every key whose first component is `a`.
    pub fn remove_first_is(&mut self, a: &str)
        ensures
            final(self)@ == old(self)@.restrict(old(self)@.dom().filter(|k: PairKey| k.0 != a@)),
    {
        let av = chars_of(a);
        self.retain_where(av.as_slice(), av.as_slice(), 0);
        assert(old(self)@.dom().filter(key_pred(av@, av@, 0)) =~= old(self)@.dom().filter(|k: PairKey| k.0 != a@));
    }

    /// Removes every key that has `a` as either component.
    pub fn remove_touching(&mut self, a: &str)
        ensures
            final(self)@ == old(self)@.restrict(old(self)@.dom().filter(|k: PairKey| k.0 != a@ && k.1 != a@)),
    {
        let av = chars_of(a);
        self.retain_where(av.as_slice(), av.as_slice(), 2);
        assert(old(self)@.dom().filter(key_pred(av@, av@, 2)) =~= old(self)@.dom().filter(|k: PairKey| k.0 != a@ && k.1 != a@));
    }

    /// Removes every key.
    pub fn clear(&mut self)
        ensures
            final(self)@ == Map::<PairKey, i32>::empty(),
    {
        self.entries = Vec::new();
        assert(self.seq() =~= Seq::<(PairKey, i32)>::empty());
    }

}

pub open spec fn keep_pair(k: PairKey, a: Seq<char>, b: Seq<char>, mode: u8) -> bool {
    if mode == 0 {
        k.0 != a
    } else if mode == 1 {
        k.1 != a
    } else if mode == 2 {
        k.0 != a && k.1 != a
    } else {
        k != (a, b)
    }
}

pub open spec fn key_pred(a: Seq<char>, b: Seq<char>, mode: u8) -> spec_fn(PairKey) -> bool {
    |k: PairKey| keep_pair(k, a, b, mode)
}

pub open spec fn entry_pred(a: Seq<char>, b: Seq<char>, mode: u8) -> spec_fn((PairKey, i32)) -> bool {
    |x: (PairKey, i32)| keep_pair(x.0, a, b, mode)
}


pub open spec fn word_pred(a: Seq<char>) -> spec_fn((Seq<char>, i32)) -> bool {
    |x: (Seq<char>, i32)| x.0 != a
}

proof fn lemma_word_remove(e: Seq<(Seq<char>, i32)>, a: Seq<char>)
    ensures
        word_map(e.filter(word_pred(a))) == word_map(e).remove(a),
    decreases e.len(),
{
    reveal_with_fuel(Seq::filter, 1);
    let f = word_pred(a);
    if e.len() > 0 {
        let d = e.drop_last();
        let x = e.last();
        lemma_word_remove(d, a);
        assert(e.filter(f) == if f(x) { d.filter(f).push(x) } else { d.filter(f) });
        if x.0 != a {
            assert(d.filter(f).push(x).drop_last() =~= d.filter(f));
            assert(d.filter(f).push(x).last() == x);
            assert(word_map(e.filter(f)) =~= word_map(e).remove(a));
        } else {
            assert(word_map(e.filter(f)) =~= word_map(e).remove(a));
        }
    } else {
        assert(word_map(e.filter(f)) =~= word_map(e).remove(a));
    }
}

proof fn lemma_word_distinct_filter(e: Seq<(Seq<char>, i32)>, a: Seq<char>)
    requires
        forall|i: int, j: int| 0 <= i < j < e.len() ==> e[i].0 != e[j].0,
    ensures
        forall|i: int, j: int| 0 <= i < j < e.filter(word_pred(a)).len() ==> e.filter(word_pred(a))[i].0 != e.filter(word_pred(a))[j].0,
        forall|i: int| 0 <= i < e.filter(word_pred(a)).len() ==> e.filter(word_pred(a))[i].0 != a,
    decreases e.len(),
{
    reveal_with_fuel(Seq::filter, 1);
    let f = word_pred(a);
    if e.len() > 0 {
        let d = e.drop_last();
        let x = e.last();
        assert forall|i: int, j: int| 0 <= i < j < d.len() implies d[i].0 != d[j].0 by {
            assert(d[i] == e[i] && d[j] == e[j]);
        }
        lemma_word_distinct_filter(d, a);
        assert(e.filter(f) == if f(x) { d.filter(f).push(x) } else { d.filter(f) });
        if f(x) {
            let df = d.filter(f);
            lemma_filter_from(d, f);
            assert forall|i: int| 0 <= i < df.len() implies df[i].0 != x.0 by {
                let k = choose|k: int| 0 <= k < d.len() && d[k] == df[i];
                assert(e[k] == d[k]);
            }
        }
    }
}

/// Every element of a filtered sequence comes from the sequence.
proof fn lemma_filter_from<A>(e: Seq<A>, f: spec_fn(A) -> bool)
    ensures
        forall|i: int| 0 <= i < e.filter(f).len() ==> exists|k: int| 0 <= k < e.len() && e[k] == #[trigger] e.filter(f)[i],
    decreases e.len(),
{
    reveal_with_fuel(Seq::filter, 1);
    if e.len() > 0 {
        let d = e.drop_last();
        lemma_filter_from(d, f);
        assert forall|i: int| 0 <= i < e.filter(f).len() implies exists|k: int| 0 <= k < e.len() && e[k] == #[trigger] e.filter(f)[i] by {
            if i < d.filter(f).len() {
                let k = choose|k: int| 0 <= k < d.len() && d[k] == d.filter(f)[i];
                assert(e[k] == d[k]);
                assert(e.filter(f)[i] == d.filter(f)[i]);
            } else {
                assert(e.filter(f)[i] == e[e.len() - 1]);
            }
        }
    }
}

/// Scores keyed by one string; keys are distinct.
pub struct WordTable {
    entries: Vec<(Vec<char>, i32)>,
}

impl View for WordTable {
    type V = Map<Seq<char>, i32>;

    closed spec fn view(&self) -> Map<Seq<char>, i32> {
        word_map(self.seq())
    }
}

impl WordTable {
    /// The entries in their stored order.
    pub closed spec fn seq(&self) -> Seq<(Seq<char>, i32)> {
        self.entries@.map_values(|x: (Vec<char>, i32)| (x.0@, x.1))
    }

    pub closed spec fn wf(&self) -> bool {
        forall|i: int, j: int| 0 <= i < j < self.seq().len() ==> self.seq()[i].0 != self.seq()[j].0
    }

    /// Empty table.
    pub fn new() -> (r: Self)
        ensures
            r.wf(),
            r@ == Map::<Seq<char>, i32>::empty(),
            r.seq().len() == 0,
    {
        let r = WordTable { entries: Vec::new() };
        assert(r.seq() =~= Seq::<(Seq<char>, i32)>::empty());
        r
    }

    /// Number of entries.
    pub fn len(&self) -> (r: usize)
        ensures
            r == self.seq().len(),
    {
        self.entries.len()
    }

    /// Whether the table holds no key.
    pub fn is_empty(&self) -> (r: bool)
        ensures
            r == (self@.dom() == Set::<Seq<char>>::empty()),
            r == (self.seq().len() == 0),
    {
        let r = self.entries.len() == 0;
        proof {
            if r {
                assert(self.seq() =~= Seq::<(Seq<char>, i32)>::empty());
                assert(self@.dom() =~= Set::<Seq<char>>::empty());
            } else {
                let e = self.seq();
                assert(self@.contains_key(e.last().0));
            }
        }
        r
    }

    /// The entry at position `i`.
    pub fn entry_at(&self, i: usize) -> (r: (&Vec<char>, i32))
        requires
            i < self.seq().len(),
        ensures
            r.0@ == self.seq()[i as int].0,
            r.1 == self.seq()[i as int].1,
    {
        (&self.entries[i].0, self.entries[i].1)
    }

    fn find(&self, a: &[char]) -> (r: Option<usize>)
        ensures
            r is Some <==> self@.contains_key(a@),
            r matches Some(j) ==> j < self.entries@.len() && self.entries@[j as int].1 == self@[a@],
    {
        let ghost e = self.seq();
        let mut j: usize = self.entries.len();
        while j > 0
            invariant
                j <= self.entries@.len(),
                e == self.seq(),
                e.len() == self.entries@.len(),
                forall|i: int| j <= i < e.len() ==> e[i].0 != a@,
            decreases j,
        {
            j -= 1;
            if chars_eq(self.entries[j].0.as_slice(), a) {
                proof {
                    assert(e[j as int].0 == a@);
                    assert(e[j as int].1 == self.entries@[j as int].1);
                    lemma_word_lookup(e, a@);
                }
                return Some(j);
            }
            assert(e[j as int].0 != a@);
        }
        proof {
            lemma_word_lookup(e, a@);
        }
        None
    }

    /// Value for `key`.
    pub fn get(&self, key: &String) -> (r: Option<&i32>)
        ensures
            r is Some <==> self@.contains_key(key@),
            r matches Some(v) ==> *v == self@[key@],
    {
        let a = chars_of(key.as_str());
        match self.find(a.as_slice()) {
            Some(j) => Some(&self.entries[j].1),
            None => None,
        }
    }

    fn remove_chars(&mut self, a: &[char])
        requires
            old(self).wf(),
        ensures
            final(self).wf(),
            final(self)@ == old(self)@.remove(a@),
            forall|i: int| 0 <= i < final(self).seq().len() ==> final(self).seq()[i].0 != a@,
            final(self).seq() == old(self).seq().filter(word_pred(a@)),
    {
        let ghost e = self.seq();
        let mut out: Vec<(Vec<char>, i32)> = Vec::new();
        let mut i: usize = 0;
        while i < self.entries.len()
            invariant
                e == self.seq(),
                e.len() == self.entries@.len(),
                i <= self.entries@.len(),
                out@.map_values(|x: (Vec<char>, i32)| (x.0@, x.1)) == e.take(i as int).filter(word_pred(a@)),
            decreases self.entries@.len() - i,
        {
            let same = chars_eq(self.entries[i].0.as_slice(), a);
            proof {
                reveal_with_fuel(Seq::filter, 1);
                assert(e.take(i + 1).drop_last() =~= e.take(i as int));
                assert(e.take(i + 1).last() == e[i as int]);
            }
            let ghost before = out@;
            if !same {
                let k = crate::text::vec_from_range(self.entries[i].0.as_slice(), 0, self.entries[i].0.len());
                assert(self.entries@[i as int].0@.subrange(0, self.entries@[i as int].0@.len() as int) =~= self.entries@[i as int].0@);
                out.push((k, self.entries[i].1));
                assert(out@.map_values(|x: (Vec<char>, i32)| (x.0@, x.1)) =~= before.map_values(|x: (Vec<char>, i32)| (x.0@, x.1)).push(e[i as int]));
            }
            i += 1;
        }
        assert(e.take(e.len() as int) =~= e);
        self.entries = out;
        proof {
            lemma_word_remove(e, a@);
            lemma_word_distinct_filter(e, a@);
        }
    }

    /// Sets the value of `key`.
    pub fn insert_str(&mut self, key: &str, v: i32)
        requires
            old(self).wf(),
        ensures
            final(self).wf(),
            final(self)@ == old(self)@.insert(key@, v),
    {
        let a = chars_of(key);
        self.remove_chars(a.as_slice());
        let ghost mid = self.seq();
        self.entries.push((a, v));
        assert(self.seq() =~= mid.push((key@, v)));
        assert(self.seq().drop_last() =~= mid);
        assert(self@ =~= old(self)@.insert(key@, v));
    }

    /// Sets the value of `key` if it is absent.
    pub fn insert_if_absent(&mut self, key: &str, v: i32)
        requires
            old(self).wf(),
        ensures
            final(self).wf(),
            final(self)@ == if old(self)@.contains_key(key@) {
                old(self)@
            } else {
                old(self)@.insert(key@, v)
            },
    {
        let a = chars_of(key);
        if self.find(a.as_slice()).is_none() {
            self.insert_str(key, v);
        }
    }

    /// Removes every key.
    pub fn clear(&mut self)
        ensures
            final(self).wf(),
            final(self)@ == Map::<Seq<char>, i32>::empty(),
            final(self).seq().len() == 0,
    {
        self.entries = Vec::new();
        assert(self.seq() =~= Seq::<(Seq<char>, i32)>::empty());
    }
}

} // verus!
