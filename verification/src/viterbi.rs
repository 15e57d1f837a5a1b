//! Viterbi search over the word lattice: the converter, its learned tables
//! and the best-path search.

use vstd::prelude::*;
use crate::dictionary::{ConnectionMatrix, Dictionary, WordEntry, WordSpec, PosId, entries_view};
use crate::lattice::{Lattice, LatticeNode, sat, sat_add, sat_sub, i32_max, opt_entry_view, shape};
use crate::learned::{PairKey, PairTable, WordTable};
use crate::text::chars_of;
use crate::scoring::{seed_pairs, bonus_of, frequency_to_bonus, COMMON_WORD_SEED_BONUS, UNIGRAM_BONUS_CAP, BIGRAM_BONUS_CAP};

verus! {

/// Kana-kanji converter: dictionary, unknown-word and katakana settings, and
/// what it has learned.
pub struct ViterbiConverter {
    /// Dictionary.
    pub dictionary: Dictionary,
    /// Context id of unknown-word nodes.
    pub unknown_id: PosId,
    /// Cost of an unknown-word node.
    pub unknown_cost: i32,
    /// Context id of katakana nodes.
    pub katakana_pos_id: PosId,
    /// Whether katakana nodes are generated.
    pub enable_katakana_fallback: bool,
    /// Base cost of a katakana node (cost = base + length * step).
    pub katakana_base_cost: i32,
    /// Cost per character of a katakana node.
    pub katakana_step_cost: i32,
    /// Shortest reading (in characters) that gets a katakana node.
    pub katakana_min_len: usize,
    /// Longest reading (in characters) that gets a katakana node.
    pub katakana_max_len: usize,
    /// Extra cost of a katakana node that starts where a dictionary word
    /// starts.
    pub katakana_dict_start_penalty: i32,
    /// Extra cost of a one-kanji word.
    pub single_kanji_penalty: i32,
    /// Learned (reading, surface) cost reductions.
    pub learned_unigram: PairTable,
    /// Learned (previous surface, surface) connection-cost reductions.
    pub learned_bigram: PairTable,
    /// Learned associations between content words.
    pub learned_assoc: PairTable,
    /// Learned readings that should stay in hiragana, with their bonus.
    pub learned_hiragana: WordTable,
}

impl ViterbiConverter {
    /// The dictionary and the hiragana table are well formed, and katakana
    /// nodes are at least one character long.
    pub open spec fn wf(&self) -> bool {
        &&& self.dictionary.wf()
        &&& self.learned_hiragana.wf()
        &&& self.katakana_min_len >= 1
    }

    /// Everything but the learned tables is the same in `self` and `other`.
    pub open spec fn same_settings(&self, other: &Self) -> bool {
        &&& self.dictionary == other.dictionary
        &&& self.unknown_id == other.unknown_id
        &&& self.unknown_cost == other.unknown_cost
        &&& self.katakana_pos_id == other.katakana_pos_id
        &&& self.enable_katakana_fallback == other.enable_katakana_fallback
        &&& self.katakana_base_cost == other.katakana_base_cost
        &&& self.katakana_step_cost == other.katakana_step_cost
        &&& self.katakana_min_len == other.katakana_min_len
        &&& self.katakana_max_len == other.katakana_max_len
        &&& self.katakana_dict_start_penalty == other.katakana_dict_start_penalty
        &&& self.single_kanji_penalty == other.single_kanji_penalty
    }
}

/// Connection cost from node `a` to node `b`, less a learned bigram bonus
/// between their surfaces.
pub open spec fn edge_conn(m: ConnectionMatrix, big: Map<PairKey, i32>, a: LatticeNode, b: LatticeNode) -> i32 {
    let c = m.spec_get(a.right_id, b.left_id) as i32;
    match (a.entry, b.entry) {
        (Some(pe), Some(ce)) => if big.contains_key((pe.surface@, ce.surface@)) {
            sat(c - big[(pe.surface@, ce.surface@)])
        } else {
            c
        },
        _ => c,
    }
}

/// Cost of reaching `b` through `a` when `a` is reached at cost `x`.
pub open spec fn step_cost(m: ConnectionMatrix, big: Map<PairKey, i32>, a: LatticeNode, b: LatticeNode, x: i32) -> i32 {
    sat(sat(x + edge_conn(m, big, a, b)) + b.word_cost)
}

/// Lowest path cost from the begin node to node `i` (the maximum when no
/// path stays below it).
pub open spec fn best_total(m: ConnectionMatrix, big: Map<PairKey, i32>, l: Lattice, i: int) -> i32
    decreases l.node(i).start as int, l.ending(l.node(i).start as int).len() + 1,
{
    if i == l.bos_index {
        0
    } else {
        best_fold(m, big, l, i, l.ending(l.node(i).start as int).len() as int).0
    }
}

/// The best cost and predecessor of node `i` among the first `k` nodes
/// that end where `i` starts; the first strictly lowest wins.
#[verifier::opaque]
pub open spec fn best_fold(m: ConnectionMatrix, big: Map<PairKey, i32>, l: Lattice, i: int, k: int) -> (i32, Option<usize>)
    decreases l.node(i).start as int, k,
{
    if k <= 0 {
        (i32_max(), None)
    } else {
        let prev = best_fold(m, big, l, i, k - 1);
        let p = l.node(i).start as int;
        let j = l.ending(p)[k - 1];
        let xj = if j == l.bos_index {
            0i32
        } else if (l.node(j as int).start as int) < p {
            best_total(m, big, l, j as int)
        } else {
            i32_max()
        };
        if xj == i32_max() {
            prev
        } else {
            let t = step_cost(m, big, l.node(j as int), l.node(i), xj);
            if t < prev.0 {
                (t, Some(j))
            } else {
                prev
            }
        }
    }
}

/// Predecessor of node `i` on its best path.
#[verifier::opaque]
pub open spec fn best_prev(m: ConnectionMatrix, big: Map<PairKey, i32>, l: Lattice, i: int) -> Option<usize> {
    if i == l.bos_index {
        None
    } else {
        best_fold(m, big, l, i, l.ending(l.node(i).start as int).len() as int).1
    }
}

/// The lattice `b` is `a` with possibly different costs and predecessors.
pub open spec fn same_shape(a: Lattice, b: Lattice) -> bool {
    &&& a.input == b.input
    &&& a.nodes_starting_at == b.nodes_starting_at
    &&& a.nodes_ending_at == b.nodes_ending_at
    &&& a.bos_index == b.bos_index
    &&& a.eos_index == b.eos_index
    &&& a.nodes@.len() == b.nodes@.len()
    &&& forall|i: int|
        0 <= i < a.nodes@.len() ==> {
            let x = #[trigger] a.node(i);
            let y = b.node(i);
            &&& x.start == y.start
            &&& x.end == y.end
            &&& x.entry == y.entry
            &&& x.left_id == y.left_id
            &&& x.right_id == y.right_id
            &&& x.word_cost == y.word_cost
        }
}

/// Every node carries its best cost and predecessor.
pub open spec fn solved(m: ConnectionMatrix, big: Map<PairKey, i32>, orig: Lattice, l: Lattice) -> bool {
    &&& same_shape(orig, l)
    &&& forall|i: int|
        0 <= i < l.nodes@.len() ==> (#[trigger] l.node(i)).total_cost == best_total(m, big, orig, i)
            && l.node(i).prev_node == best_prev(m, big, orig, i)
}

proof fn lemma_same_shape_wf(a: Lattice, b: Lattice)
    requires
        a.wf(),
        same_shape(a, b),
    ensures
        b.wf(),
{
    assert forall|i: int| 0 <= i < b.nodes@.len() implies #[trigger] b.node(i).start <= b.node(i).end && b.node(i).end <= b.len() by {
        assert(a.node(i).start <= a.node(i).end);
    }
    assert forall|i: int| 0 <= i < b.nodes@.len() && i != b.bos_index && i != b.eos_index implies #[trigger] b.node(i).start < b.node(i).end by {
        assert(a.node(i).start < a.node(i).end);
    }
    assert forall|p: int, k: int| 0 <= p <= b.len() && 0 <= k < b.starting(p).len() implies ({
        let i = #[trigger] b.starting(p)[k];
        &&& i < b.nodes@.len()
        &&& b.node(i as int).start == p
        &&& i != b.bos_index
    }) by {
        let i = a.starting(p)[k];
        assert(a.node(i as int).start == p);
    }
    assert forall|p: int, k: int| 0 <= p <= b.len() && 0 <= k < b.ending(p).len() implies ({
        let i = #[trigger] b.ending(p)[k];
        &&& i < b.nodes@.len()
        &&& b.node(i as int).end == p
        &&& i != b.eos_index
    }) by {
        let i = a.ending(p)[k];
        assert(a.node(i as int).end == p);
    }
    assert forall|i: int| 0 <= i < b.nodes@.len() && i != b.bos_index implies #[trigger] b.starting(b.node(i).start as int).contains(i as usize) by {
        assert(a.starting(a.node(i).start as int).contains(i as usize));
    }
    assert forall|i: int| 0 <= i < b.nodes@.len() && i != b.eos_index implies #[trigger] b.ending(b.node(i).end as int).contains(i as usize) by {
        assert(a.ending(a.node(i).end as int).contains(i as usize));
    }
}

impl ViterbiConverter {
    /// Connection cost between two nodes, with the learned bigram bonus.
    fn conn_cost(&self, prev: &LatticeNode, cur: &LatticeNode, use_bigram: bool) -> (r: i32)
        requires
            use_bigram == !(self.learned_bigram@.dom() == Set::<PairKey>::empty()),
        ensures
            r == edge_conn(self.dictionary.matrix, self.learned_bigram@, *prev, *cur),
    {
        let mut conn = self.dictionary.matrix.get(prev.right_id, cur.left_id) as i32;
        if use_bigram {
            match (&prev.entry, &cur.entry) {
                (Some(pe), Some(ce)) => {
                    let a = chars_of(pe.surface.as_str());
                    let b = chars_of(ce.surface.as_str());
                    match self.learned_bigram.get_chars(a.as_slice(), b.as_slice()) {
                        Some(bonus) => {
                            conn = sat_sub(conn, bonus);
                        },
                        None => {},
                    }
                },
                _ => {},
            }
        } else {
            proof {
                if prev.entry is Some && cur.entry is Some {
                    let pe = prev.entry->0;
                    let ce = cur.entry->0;
                    assert(!self.learned_bigram@.dom().contains((pe.surface@, ce.surface@)));
                }
            }
        }
        conn
    }

    /// Computes, left to right, the best cost and predecessor of every node.
    pub fn find_best_path(&self, lattice: &mut Lattice)
        requires
            old(lattice).wf(),
            old(lattice).fresh(),
        ensures
            final(lattice).wf(),
            solved(self.dictionary.matrix, self.learned_bigram@, *old(lattice), *final(lattice)),
    {
        let ghost orig = *lattice;
        let ghost m = self.dictionary.matrix;
        let ghost big = self.learned_bigram@;
        let use_bigram = !self.learned_bigram.is_empty();
        let input_len = self.input_len_of(lattice);
        let bos = lattice.bos_index;
        let mut pos: usize = 0;
        loop
            invariant_except_break
                forall|j: int| 0 <= j < orig.nodes@.len() ==> {
                    let nd = #[trigger] lattice.node(j);
                    if j == bos {
                        nd.total_cost == 0 && nd.prev_node is None
                    } else if orig.node(j).start < pos {
                        nd.total_cost == best_total(m, big, orig, j) && nd.prev_node == best_prev(m, big, orig, j)
                    } else {
                        nd.total_cost == i32_max() && nd.prev_node is None
                    }
                },
            invariant
                orig.wf(),
                orig.fresh(),
                m == self.dictionary.matrix,
                big == self.learned_bigram@,
                use_bigram == !(big.dom() == Set::<PairKey>::empty()),
                input_len == orig.len(),
                bos == orig.bos_index,
                pos <= input_len,
                same_shape(orig, *lattice),
            ensures
                same_shape(orig, *lattice),
                forall|j: int| 0 <= j < orig.nodes@.len() ==> {
                    let nd = #[trigger] lattice.node(j);
                    if j == bos {
                        nd.total_cost == 0 && nd.prev_node is None
                    } else if orig.node(j).start <= pos {
                        nd.total_cost == best_total(m, big, orig, j) && nd.prev_node == best_prev(m, big, orig, j)
                    } else {
                        nd.total_cost == i32_max() && nd.prev_node is None
                    }
                },
                pos == input_len,
            decreases input_len - pos,
        {
            self.process_position(lattice, Ghost(orig), pos, use_bigram);
            if pos == input_len {
                break;
            }
            pos += 1;
        }
        proof {
            reveal_with_fuel(best_total, 1);
            reveal(best_prev);
            lemma_same_shape_wf(orig, *lattice);
            assert forall|i: int| 0 <= i < lattice.nodes@.len() implies (#[trigger] lattice.node(i)).total_cost == best_total(m, big, orig, i) && lattice.node(i).prev_node == best_prev(m, big, orig, i) by {
                assert(orig.node(i).start <= orig.node(i).end);
            }
        }
    }

    fn input_len_of(&self, lattice: &Lattice) -> (r: usize)
        requires
            lattice.wf(),
        ensures
            r == lattice.len(),
    {
        lattice.nodes_starting_at.len() - 1
    }

    /// Solves every node that starts at `pos`.
    #[verifier::rlimit(60)]
    fn process_position(&self, lattice: &mut Lattice, Ghost(orig): Ghost<Lattice>, pos: usize, use_bigram: bool)
        requires
            orig.wf(),
            orig.fresh(),
            pos <= orig.len(),
            use_bigram == !(self.learned_bigram@.dom() == Set::<PairKey>::empty()),
            same_shape(orig, *old(lattice)),
            forall|j: int| 0 <= j < orig.nodes@.len() ==> {
                let nd = #[trigger] old(lattice).node(j);
                if j == orig.bos_index {
                    nd.total_cost == 0 && nd.prev_node is None
                } else if orig.node(j).start < pos {
                    nd.total_cost == best_total(self.dictionary.matrix, self.learned_bigram@, orig, j)
                        && nd.prev_node == best_prev(self.dictionary.matrix, self.learned_bigram@, orig, j)
                } else {
                    nd.total_cost == i32_max() && nd.prev_node is None
                }
            },
        ensures
            same_shape(orig, *final(lattice)),
            forall|j: int| 0 <= j < orig.nodes@.len() ==> {
                let nd = #[trigger] final(lattice).node(j);
                if j == orig.bos_index {
                    nd.total_cost == 0 && nd.prev_node is None
                } else if orig.node(j).start <= pos {
                    nd.total_cost == best_total(self.dictionary.matrix, self.learned_bigram@, orig, j)
                        && nd.prev_node == best_prev(self.dictionary.matrix, self.learned_bigram@, orig, j)
                } else {
                    nd.total_cost == i32_max() && nd.prev_node is None
                }
            },
    {
        let ghost m = self.dictionary.matrix;
        let ghost big = self.learned_bigram@;
        let cnt = lattice.nodes_starting_at[pos].len();
        let mut k: usize = 0;
        while k < cnt
            invariant
                orig.wf(),
                orig.fresh(),
                m == self.dictionary.matrix,
                big == self.learned_bigram@,
                use_bigram == !(big.dom() == Set::<PairKey>::empty()),
                pos <= orig.len(),
                same_shape(orig, *lattice),
                cnt == orig.starting(pos as int).len(),
                k <= cnt,
                forall|j: int| 0 <= j < orig.nodes@.len() ==> {
                    let nd = #[trigger] lattice.node(j);
                    if j == orig.bos_index {
                        nd.total_cost == 0 && nd.prev_node is None
                    } else if orig.node(j).start < pos || (orig.node(j).start == pos && orig.starting(pos as int).take(k as int).contains(j as usize)) {
                        nd.total_cost == best_total(m, big, orig, j) && nd.prev_node == best_prev(m, big, orig, j)
                    } else if orig.node(j).start == pos {
                        (nd.total_cost == i32_max() && nd.prev_node is None) || (nd.total_cost == best_total(m, big, orig, j) && nd.prev_node == best_prev(m, big, orig, j))
                    } else {
                        nd.total_cost == i32_max() && nd.prev_node is None
                    }
                },
            decreases cnt - k,
        {
            let node_idx = lattice.nodes_starting_at[pos][k];
            proof {
                assert(orig.starting(pos as int)[k as int] == node_idx);
                assert(node_idx < orig.nodes@.len());
                assert(node_idx != orig.bos_index);
                assert(orig.node(node_idx as int).start == pos);
            }
            let (found_cost, found_prev) = self.best_for(lattice, Ghost(orig), pos, node_idx, use_bigram);
            let ghost before = *lattice;
            if found_cost < i32::MAX {
                lattice.nodes[node_idx].total_cost = found_cost;
                lattice.nodes[node_idx].prev_node = found_prev;
            }
            proof {
                let fold = best_fold(m, big, orig, node_idx as int, orig.ending(pos as int).len() as int);
                lemma_best_unfold(m, big, orig, node_idx as int);
                assert(best_total(m, big, orig, node_idx as int) == fold.0);
                assert(best_prev(m, big, orig, node_idx as int) == fold.1);
                lemma_fold_max_none(m, big, orig, node_idx as int, orig.ending(pos as int).len() as int);
                assert(orig.starting(pos as int).take(k + 1) =~= orig.starting(pos as int).take(k as int).push(node_idx));
                assert forall|j: int| 0 <= j < orig.nodes@.len() implies {
                    let nd = #[trigger] lattice.node(j);
                    if j == orig.bos_index {
                        nd.total_cost == 0 && nd.prev_node is None
                    } else if orig.node(j).start < pos || (orig.node(j).start == pos && orig.starting(pos as int).take(k + 1).contains(j as usize)) {
                        nd.total_cost == best_total(m, big, orig, j) && nd.prev_node == best_prev(m, big, orig, j)
                    } else if orig.node(j).start == pos {
                        (nd.total_cost == i32_max() && nd.prev_node is None) || (nd.total_cost == best_total(m, big, orig, j) && nd.prev_node == best_prev(m, big, orig, j))
                    } else {
                        nd.total_cost == i32_max() && nd.prev_node is None
                    }
                } by {
                    if j != node_idx {
                        assert(lattice.node(j) == before.node(j));
                        if orig.starting(pos as int).take(k + 1).contains(j as usize) {
                            let q = choose|q: int| 0 <= q < orig.starting(pos as int).take(k + 1).len() && #[trigger] orig.starting(pos as int).take(k + 1)[q] == j as usize;
                            assert(orig.starting(pos as int).take(k + 1)[k as int] == node_idx);
                            assert(orig.nodes@.len() <= usize::MAX);
                            assert((j as usize) as int == j);
                            assert((j as usize) != node_idx);
                            assert(q != k);
                            assert(orig.starting(pos as int).take(k as int)[q] == j as usize);
                            assert(orig.starting(pos as int).take(k as int).contains(j as usize));
                        }
                    }
                }
                assert forall|i: int| 0 <= i < orig.nodes@.len() implies {
                    let x = #[trigger] orig.node(i);
                    let y = lattice.node(i);
                    &&& x.start == y.start
                    &&& x.end == y.end
                    &&& x.entry == y.entry
                    &&& x.left_id == y.left_id
                    &&& x.right_id == y.right_id
                    &&& x.word_cost == y.word_cost
                } by {
                    assert(before.node(i).start == orig.node(i).start);
                }
            }
            k += 1;
        }
        proof {
            assert forall|j: int| 0 <= j < orig.nodes@.len() && j != orig.bos_index && orig.node(j).start == pos implies orig.starting(pos as int).take(cnt as int).contains(j as usize) by {
                assert(orig.starting(orig.node(j).start as int).contains(j as usize));
                assert(orig.starting(pos as int).take(cnt as int) =~= orig.starting(pos as int));
            }
        }
    }

    /// Best cost and predecessor of `node_idx` among the nodes ending at `pos`.
    fn best_for(&self, lattice: &Lattice, Ghost(orig): Ghost<Lattice>, pos: usize, node_idx: usize, use_bigram: bool) -> (r: (i32, Option<usize>))
        requires
            orig.wf(),
            pos <= orig.len(),
            node_idx < orig.nodes@.len(),
            node_idx != orig.bos_index,
            orig.node(node_idx as int).start == pos,
            use_bigram == !(self.learned_bigram@.dom() == Set::<PairKey>::empty()),
            same_shape(orig, *lattice),
            forall|j: int| 0 <= j < orig.nodes@.len() ==> {
                let nd = #[trigger] lattice.node(j);
                if j == orig.bos_index {
                    nd.total_cost == 0
                } else if orig.node(j).start < pos {
                    nd.total_cost == best_total(self.dictionary.matrix, self.learned_bigram@, orig, j)
                } else {
                    true
                }
            },
        ensures
            r == best_fold(self.dictionary.matrix, self.learned_bigram@, orig, node_idx as int, orig.ending(pos as int).len() as int),
    {
        let ghost m = self.dictionary.matrix;
        let ghost big = self.learned_bigram@;
        let ecnt = lattice.nodes_ending_at[pos].len();
        let mut best_cost: i32 = i32::MAX;
        let mut best_prev: Option<usize> = None;
        let mut e: usize = 0;
        proof {
            reveal_with_fuel(best_fold, 1);
        }
        while e < ecnt
            invariant
                orig.wf(),
                pos <= orig.len(),
                node_idx < orig.nodes@.len(),
                node_idx != orig.bos_index,
                orig.node(node_idx as int).start == pos,
                m == self.dictionary.matrix,
                big == self.learned_bigram@,
                use_bigram == !(big.dom() == Set::<PairKey>::empty()),
                same_shape(orig, *lattice),
                ecnt == orig.ending(pos as int).len(),
                e <= ecnt,
                (best_cost, best_prev) == best_fold(m, big, orig, node_idx as int, e as int),
                forall|j: int| 0 <= j < orig.nodes@.len() ==> {
                    let nd = #[trigger] lattice.node(j);
                    if j == orig.bos_index {
                        nd.total_cost == 0
                    } else if orig.node(j).start < pos {
                        nd.total_cost == best_total(m, big, orig, j)
                    } else {
                        true
                    }
                },
            decreases ecnt - e,
        {
            let prev_idx = lattice.nodes_ending_at[pos][e];
            proof {
                assert(orig.ending(pos as int)[e as int] == prev_idx);
                assert(prev_idx < orig.nodes@.len());
                assert(orig.node(prev_idx as int).end == pos);
                if prev_idx != orig.bos_index {
                    assert(orig.node(prev_idx as int).start < orig.node(prev_idx as int).end);
                }
                assert(lattice.node(prev_idx as int).start == orig.node(prev_idx as int).start);
                assert(lattice.node(node_idx as int).start == orig.node(node_idx as int).start);
            }
            proof {
                reveal_with_fuel(best_fold, 1);
                reveal_with_fuel(best_total, 1);
                if prev_idx != orig.bos_index {
                    assert(best_total(m, big, orig, prev_idx as int) == best_fold(m, big, orig, prev_idx as int, orig.ending(orig.node(prev_idx as int).start as int).len() as int).0);
                }
            }
            let prev = &lattice.nodes[prev_idx];
            if prev.total_cost != i32::MAX {
                let cur = &lattice.nodes[node_idx];
                let conn = self.conn_cost(prev, cur, use_bigram);
                let total = sat_add(sat_add(prev.total_cost, conn), cur.word_cost);
                if total < best_cost {
                    best_cost = total;
                    best_prev = Some(prev_idx);
                }
            }
            e += 1;
        }
        (best_cost, best_prev)
    }
}

proof fn lemma_best_unfold(m: ConnectionMatrix, big: Map<PairKey, i32>, l: Lattice, i: int)
    requires
        i != l.bos_index,
    ensures
        best_total(m, big, l, i) == best_fold(m, big, l, i, l.ending(l.node(i).start as int).len() as int).0,
        best_prev(m, big, l, i) == best_fold(m, big, l, i, l.ending(l.node(i).start as int).len() as int).1,
{
    reveal_with_fuel(best_total, 1);
    reveal_with_fuel(best_fold, 1);
    reveal(best_prev);
    let k = l.ending(l.node(i).start as int).len() as int;
    assert(best_total(m, big, l, i) == best_fold(m, big, l, i, k).0);
}

/// A fold that ends at the maximum has no predecessor.
proof fn lemma_fold_max_none(m: ConnectionMatrix, big: Map<PairKey, i32>, l: Lattice, i: int, k: int)
    ensures
        best_fold(m, big, l, i, k).0 == i32_max() ==> best_fold(m, big, l, i, k).1 is None,
        best_fold(m, big, l, i, k).1 is Some ==> best_fold(m, big, l, i, k).0 < i32_max(),
    decreases k,
{
    reveal_with_fuel(best_fold, 1);
    if k > 0 {
        lemma_fold_max_none(m, big, l, i, k - 1);
    }
}


/// Position of a node in the order of the search: the begin node first,
/// then by start offset.
pub open spec fn rank(l: Lattice, i: int) -> int {
    if i == l.bos_index {
        0
    } else {
        l.node(i).start + 1
    }
}

/// Every predecessor link points to an earlier node.
pub open spec fn prev_ranked(l: Lattice) -> bool {
    forall|i: int|
        0 <= i < l.nodes@.len() ==> match (#[trigger] l.node(i)).prev_node {
            Some(j) => j < l.nodes@.len() && rank(l, j as int) < rank(l, i),
            None => true,
        }
}

/// The nodes from the start of the predecessor chain to `i`.
pub open spec fn chain(l: Lattice, i: int) -> Seq<int>
    decreases rank(l, i),
{
    match l.node(i).prev_node {
        Some(j) => if j < l.nodes@.len() && rank(l, j as int) < rank(l, i) && 0 <= rank(l, j as int) {
            chain(l, j as int).push(i)
        } else {
            seq![i]
        },
        None => seq![i],
    }
}

/// The words of the nodes of `c`, in order.
pub open spec fn chain_words(l: Lattice, c: Seq<int>) -> Seq<WordSpec>
    decreases c.len(),
{
    if c.len() == 0 {
        Seq::empty()
    } else {
        let rest = chain_words(l, c.drop_last());
        match l.node(c.last()).entry {
            Some(e) => rest.push(e@),
            None => rest,
        }
    }
}

/// The words on the best path to the end node.
pub open spec fn best_words(l: Lattice) -> Seq<WordSpec> {
    chain_words(l, chain(l, l.eos_index as int))
}

proof fn lemma_fold_prev_in(m: ConnectionMatrix, big: Map<PairKey, i32>, l: Lattice, i: int, k: int)
    requires
        0 <= k <= l.ending(l.node(i).start as int).len(),
    ensures
        best_fold(m, big, l, i, k).1 matches Some(j) ==> exists|q: int| 0 <= q < k && #[trigger] l.ending(l.node(i).start as int)[q] == j,
    decreases k,
{
    reveal_with_fuel(best_fold, 1);
    if k > 0 {
        lemma_fold_prev_in(m, big, l, i, k - 1);
    }
}

/// After the search every predecessor is an earlier node.
pub proof fn lemma_solved_ranked(m: ConnectionMatrix, big: Map<PairKey, i32>, orig: Lattice, l: Lattice)
    requires
        orig.wf(),
        l.wf(),
        solved(m, big, orig, l),
    ensures
        prev_ranked(l),
{
    assert forall|i: int| 0 <= i < l.nodes@.len() implies match (#[trigger] l.node(i)).prev_node {
        Some(j) => j < l.nodes@.len() && rank(l, j as int) < rank(l, i),
        None => true,
    } by {
        reveal(best_prev);
        if i != orig.bos_index {
            let p = orig.node(i).start as int;
            assert(orig.node(i).start <= orig.node(i).end);
            lemma_fold_prev_in(m, big, orig, i, orig.ending(p).len() as int);
            match l.node(i).prev_node {
                Some(j) => {
                    let q = choose|q: int| 0 <= q < orig.ending(p).len() && #[trigger] orig.ending(p)[q] == j;
                    assert(orig.node(j as int).end == p);
                    if j != orig.bos_index {
                        assert(orig.node(j as int).start < orig.node(j as int).end);
                    }
                    assert(orig.node(j as int).start == l.node(j as int).start);
                },
                None => {},
            }
        }
    }
}

impl ViterbiConverter {
    /// The words on the predecessor chain of the end node, begin first.
    pub fn extract_result(&self, lattice: &Lattice) -> (r: Vec<WordEntry>)
        requires
            lattice.wf(),
            prev_ranked(*lattice),
        ensures
            entries_view(r@) == best_words(*lattice),
    {
        let ghost l = *lattice;
        let mut path: Vec<usize> = Vec::new();
        let mut cur: usize = lattice.eos_index;
        let ghost mut rest: Seq<int> = chain(l, l.eos_index as int);
        loop
            invariant_except_break
                cur < l.nodes@.len(),
                chain(l, l.eos_index as int) == chain(l, cur as int) + path@.reverse().map_values(|x: usize| x as int),
            invariant
                l == *lattice,
                lattice.wf(),
                prev_ranked(l),
                forall|q: int| 0 <= q < path@.len() ==> path@[q] < l.nodes@.len(),
            ensures
                chain(l, l.eos_index as int) == path@.reverse().map_values(|x: usize| x as int),
            decreases rank(l, cur as int),
        {
            proof {
                assert(l.node(cur as int).start <= l.node(cur as int).end);
            }
            let ghost before = path@;
            path.push(cur);
            match lattice.nodes[cur].prev_node {
                Some(j) => {
                    proof {
                        assert(chain(l, cur as int) == chain(l, j as int).push(cur as int));
                        assert(path@.reverse().map_values(|x: usize| x as int) =~= seq![cur as int] + before.reverse().map_values(|x: usize| x as int));
                        assert(chain(l, j as int).push(cur as int) + before.reverse().map_values(|x: usize| x as int) =~= chain(l, j as int) + path@.reverse().map_values(|x: usize| x as int));
                    }
                    cur = j;
                },
                None => {
                    proof {
                        assert(chain(l, cur as int) == seq![cur as int]);
                        assert(path@.reverse().map_values(|x: usize| x as int) =~= seq![cur as int] + before.reverse().map_values(|x: usize| x as int));
                        assert(chain(l, l.eos_index as int) =~= path@.reverse().map_values(|x: usize| x as int));
                    }
                    break;
                },
            }
        }
        let ghost c = chain(l, l.eos_index as int);
        assert(c =~= path@.reverse().map_values(|x: usize| x as int));
        let mut result: Vec<WordEntry> = Vec::new();
        let mut k: usize = path.len();
        while k > 0
            invariant
                l == *lattice,
                lattice.wf(),
                k <= path@.len(),
                c == path@.reverse().map_values(|x: usize| x as int),
                c.len() == path@.len(),
                forall|q: int| 0 <= q < path@.len() ==> path@[q] < l.nodes@.len(),
                entries_view(result@) == chain_words(l, c.take(path@.len() - k)),
            decreases k,
        {
            k -= 1;
            let idx = path[k];
            let ghost t = path@.len() - k;
            assert(c.take(t).drop_last() =~= c.take(t - 1));
            assert(c.take(t).last() == idx as int);
            match &lattice.nodes[idx].entry {
                Some(e) => {
                    let ghost before = entries_view(result@);
                    result.push(e.clone());
                    assert(entries_view(result@) =~= before.push(e@));
                },
                None => {},
            }
        }
        assert(c.take(path@.len() as int) =~= c);
        result
    }
}
} // verus!

verus! {

/// Readings whose noun entry gives the context id of unknown and katakana
/// nodes.
pub open spec fn noun_readings() -> Seq<Seq<char>> {
    seq!["ひと"@, "やま"@, "ほん"@, "みず"@]
}

/// The first cheapest entry whose left and right ids agree.
pub open spec fn min_same_id(es: Seq<WordSpec>) -> Option<WordSpec>
    decreases es.len(),
{
    if es.len() == 0 {
        None
    } else {
        let b = min_same_id(es.drop_last());
        let e = es.last();
        if e.left_id == e.right_id && (b is None || e.cost < b->0.cost) {
            Some(e)
        } else {
            b
        }
    }
}

/// Context id of the first of `rs[i..]` that has such an entry, else 1.
pub open spec fn noun_id_from(words: Map<Seq<char>, Seq<WordSpec>>, rs: Seq<Seq<char>>, i: nat) -> PosId
    decreases rs.len() - i,
{
    if i >= rs.len() {
        1
    } else if words.contains_key(rs[i as int]) && min_same_id(words[rs[i as int]]) is Some {
        min_same_id(words[rs[i as int]])->0.left_id
    } else {
        noun_id_from(words, rs, i + 1)
    }
}

/// Context id used for unknown words and katakana: that of a common noun of
/// the dictionary.
pub open spec fn noun_id_of(words: Map<Seq<char>, Seq<WordSpec>>) -> PosId {
    noun_id_from(words, noun_readings(), 0)
}

/// `m` with `v` set for each pair of `ps[..n]` that it lacks.
pub open spec fn insert_absent(m: Map<PairKey, i32>, ps: Seq<(Seq<char>, Seq<char>)>, n: nat, v: i32) -> Map<PairKey, i32>
    decreases n,
{
    if n == 0 || n > ps.len() {
        m
    } else {
        let prev = insert_absent(m, ps, (n - 1) as nat, v);
        let k = ps[n - 1];
        if prev.contains_key(k) {
            prev
        } else {
            prev.insert(k, v)
        }
    }
}

/// The learned pairs after the frequent words are seeded into `m`: the
/// built-in list where absent, then a few readings whose dictionary cost is
/// known to lose against fragments, with fixed bonuses.
pub open spec fn seeded_unigrams(m: Map<PairKey, i32>) -> Map<PairKey, i32> {
    insert_absent(m, seed_pairs(), seed_pairs().len(), COMMON_WORD_SEED_BONUS)
        .insert(("を"@, "を"@), 8000)
        .insert(("かんがえる"@, "考える"@), 4000)
        .insert(("うしろ"@, "後ろ"@), 4000)
        .insert(("ぶんしょう"@, "文章"@), 9000)
        .insert(("もんだいない"@, "問題ない"@), 8000)
        .insert(("ごじ"@, "誤字"@), 4000)
}

/// The hiragana preferences after seeding: したい stays in hiragana.
pub open spec fn seeded_hiragana(m: Map<Seq<char>, i32>) -> Map<Seq<char>, i32> {
    if m.contains_key("したい"@) {
        m
    } else {
        m.insert("したい"@, COMMON_WORD_SEED_BONUS)
    }
}

/// First cheapest entry with equal left and right ids.
fn first_min_same_id(es: &Vec<WordEntry>) -> (r: Option<PosId>)
    ensures
        r == (match min_same_id(entries_view(es@)) {
            Some(e) => Some(e.left_id),
            None => None,
        }),
{
    let mut best: Option<(i16, PosId)> = None;
    let mut i: usize = 0;
    while i < es.len()
        invariant
            i <= es.len(),
            best == (match min_same_id(entries_view(es@).take(i as int)) {
                Some(e) => Some((e.cost, e.left_id)),
                None => None,
            }),
        decreases es.len() - i,
    {
        let ghost v = entries_view(es@);
        assert(v.take(i + 1).drop_last() =~= v.take(i as int));
        assert(v.take(i + 1).last() == es@[i as int]@);
        let e = &es[i];
        if e.left_id == e.right_id {
            match best {
                None => {
                    best = Some((e.cost, e.left_id));
                },
                Some((c, _)) => {
                    if e.cost < c {
                        best = Some((e.cost, e.left_id));
                    }
                },
            }
        }
        i += 1;
    }
    assert(entries_view(es@).take(es@.len() as int) =~= entries_view(es@));
    match best {
        Some((_, id)) => Some(id),
        None => None,
    }
}

fn pick_noun_id(dictionary: &Dictionary) -> (r: PosId)
    requires
        dictionary.wf(),
    ensures
        r == noun_id_of(dictionary.words()),
{
    let list: [&str; 4] = ["ひと", "やま", "ほん", "みず"];
    let mut i: usize = 0;
    while i < 4
        invariant
            i <= 4,
            dictionary.wf(),
            forall|k: int| 0 <= k < 4 ==> (#[trigger] list@[k])@ == noun_readings()[k],
            noun_id_of(dictionary.words()) == noun_id_from(dictionary.words(), noun_readings(), i as nat),
        decreases 4 - i,
    {
        match dictionary.lookup(list[i]) {
            Some(es) => {
                match first_min_same_id(es) {
                    Some(id) => {
                        return id;
                    },
                    None => {},
                }
            },
            None => {},
        }
        i += 1;
    }
    1
}

impl ViterbiConverter {
    /// Converter over `dictionary` with the default settings and the
    /// frequent words seeded.
    pub fn new(dictionary: Dictionary) -> (r: Self)
        requires
            dictionary.wf(),
        ensures
            r.wf(),
            r.dictionary == dictionary,
            r.unknown_id == noun_id_of(dictionary.words()),
            r.katakana_pos_id == noun_id_of(dictionary.words()),
            r.unknown_cost == 10000,
            r.enable_katakana_fallback,
            r.katakana_base_cost == 4000,
            r.katakana_step_cost == 1000,
            r.katakana_min_len == 2,
            r.katakana_max_len == 8,
            r.katakana_dict_start_penalty == 1500,
            r.single_kanji_penalty == 300,
            r.learned_unigram@ == seeded_unigrams(Map::empty()),
            r.learned_bigram@ == Map::<PairKey, i32>::empty(),
            r.learned_assoc@ == Map::<PairKey, i32>::empty(),
            r.learned_hiragana@ == seeded_hiragana(Map::empty()),
    {
        let noun_id = pick_noun_id(&dictionary);
        let mut conv = ViterbiConverter {
            dictionary,
            unknown_id: noun_id,
            unknown_cost: 10000,
            katakana_pos_id: noun_id,
            enable_katakana_fallback: true,
            katakana_base_cost: 4000,
            katakana_step_cost: 1000,
            katakana_min_len: 2,
            katakana_max_len: 8,
            katakana_dict_start_penalty: 1500,
            single_kanji_penalty: 300,
            learned_unigram: PairTable::new(),
            learned_bigram: PairTable::new(),
            learned_assoc: PairTable::new(),
            learned_hiragana: WordTable::new(),
        };
        conv.seed_common_words();
        conv
    }

    /// Seeds the frequent words into the learned tables.
    fn seed_common_words(&mut self)
        requires
            old(self).learned_hiragana.wf(),
        ensures
            final(self).learned_hiragana.wf(),
            final(self).same_settings(old(self)),
            final(self).learned_unigram@ == seeded_unigrams(old(self).learned_unigram@),
            final(self).learned_bigram@ == old(self).learned_bigram@,
            final(self).learned_assoc@ == old(self).learned_assoc@,
            final(self).learned_hiragana@ == seeded_hiragana(old(self).learned_hiragana@),
    {
        let ghost m0 = self.learned_unigram@;
        let list: [(&str, &str); 8] = [
            ("あう", "会う"),
            ("いう", "言う"),
            ("おもう", "思う"),
            ("みる", "見る"),
            ("わたし", "私"),
            ("にほん", "日本"),
            ("かんじ", "漢字"),
            ("ことば", "言葉"),
        ];
        let mut i: usize = 0;
        while i < 8
            invariant
                i <= 8,
                forall|k: int| 0 <= k < 8 ==> ((#[trigger] list@[k]).0@, list@[k].1@) == seed_pairs()[k],
                self.learned_unigram@ == insert_absent(m0, seed_pairs(), i as nat, COMMON_WORD_SEED_BONUS),
                self.same_settings(old(self)),
                self.learned_bigram@ == old(self).learned_bigram@,
                self.learned_assoc@ == old(self).learned_assoc@,
                self.learned_hiragana == old(self).learned_hiragana,
            decreases 8 - i,
        {
            let (a, b) = list[i];
            self.learned_unigram.insert_if_absent(a, b, COMMON_WORD_SEED_BONUS);
            i += 1;
        }
        self.learned_unigram.insert_str("を", "を", 8000);
        self.learned_unigram.insert_str("かんがえる", "考える", 4000);
        self.learned_unigram.insert_str("うしろ", "後ろ", 4000);
        self.learned_unigram.insert_str("ぶんしょう", "文章", 9000);
        self.learned_unigram.insert_str("もんだいない", "問題ない", 8000);
        self.learned_unigram.insert_str("ごじ", "誤字", 4000);
        self.learned_hiragana.insert_if_absent("したい", COMMON_WORD_SEED_BONUS);
    }

    /// Forgets everything learned; the seeded frequent words come back.
    pub fn clear_learning(&mut self)
        requires
            old(self).wf(),
        ensures
            final(self).wf(),
            final(self).same_settings(old(self)),
            final(self).learned_unigram@ == seeded_unigrams(Map::empty()),
            final(self).learned_bigram@ == Map::<PairKey, i32>::empty(),
            final(self).learned_assoc@ == Map::<PairKey, i32>::empty(),
            final(self).learned_hiragana@ == seeded_hiragana(Map::empty()),
    {
        self.learned_unigram.clear();
        self.learned_bigram.clear();
        self.learned_assoc.clear();
        self.learned_hiragana.clear();
        self.seed_common_words();
    }

    /// Prefers hiragana for `reading` with a bonus from its use count,
    /// kept between the seed bonus and 3000.
    pub fn learn_hiragana(&mut self, reading: &str, freq: u32)
        requires
            old(self).wf(),
        ensures
            final(self).wf(),
            final(self).same_settings(old(self)),
            final(self).learned_unigram@ == old(self).learned_unigram@,
            final(self).learned_bigram@ == old(self).learned_bigram@,
            final(self).learned_assoc@ == old(self).learned_assoc@,
            final(self).learned_hiragana@ == old(self).learned_hiragana@.insert(
                reading@,
                clamp_i32(bonus_of(freq), COMMON_WORD_SEED_BONUS, 3000),
            ),
    {
        let b = frequency_to_bonus(freq);
        let bonus = if b < COMMON_WORD_SEED_BONUS {
            COMMON_WORD_SEED_BONUS
        } else if b > 3000 {
            3000
        } else {
            b
        };
        self.learned_hiragana.insert_str(reading, bonus);
    }

    /// Forgets every learned surface of `reading`.
    pub fn forget_reading(&mut self, reading: &str)
        requires
            old(self).wf(),
        ensures
            final(self).wf(),
            final(self).same_settings(old(self)),
            final(self).learned_unigram@ == old(self).learned_unigram@.restrict(
                old(self).learned_unigram@.dom().filter(|k: PairKey| k.0 != reading@),
            ),
            final(self).learned_bigram@ == old(self).learned_bigram@,
            final(self).learned_assoc@ == old(self).learned_assoc@,
            final(self).learned_hiragana == old(self).learned_hiragana,
    {
        self.learned_unigram.remove_first_is(reading);
    }

    /// Forgets one learned (reading, surface) pair and every connection and
    /// association that involves the surface.
    pub fn forget_unigram(&mut self, reading: &str, surface: &str)
        requires
            old(self).wf(),
        ensures
            final(self).wf(),
            final(self).same_settings(old(self)),
            final(self).learned_unigram@ == old(self).learned_unigram@.remove((reading@, surface@)),
            final(self).learned_bigram@ == old(self).learned_bigram@.restrict(
                old(self).learned_bigram@.dom().filter(|k: PairKey| k.0 != surface@ && k.1 != surface@),
            ),
            final(self).learned_assoc@ == old(self).learned_assoc@.restrict(
                old(self).learned_assoc@.dom().filter(|k: PairKey| k.0 != surface@ && k.1 != surface@),
            ),
            final(self).learned_hiragana == old(self).learned_hiragana,
    {
        self.learned_unigram.remove_str(reading, surface);
        self.learned_bigram.remove_touching(surface);
        self.learned_assoc.remove_touching(surface);
    }

    /// Learns that `reading` was written `surface`, with a bonus from the use
    /// count capped at the unigram cap.
    pub fn learn_unigram(&mut self, reading: &str, surface: &str, freq: u32)
        requires
            old(self).wf(),
        ensures
            final(self).wf(),
            final(self).same_settings(old(self)),
            final(self).learned_unigram@ == old(self).learned_unigram@.insert(
                (reading@, surface@),
                min_i32(bonus_of(freq), UNIGRAM_BONUS_CAP),
            ),
            final(self).learned_bigram@ == old(self).learned_bigram@,
            final(self).learned_assoc@ == old(self).learned_assoc@,
            final(self).learned_hiragana == old(self).learned_hiragana,
    {
        let b = frequency_to_bonus(freq);
        let bonus = if b < UNIGRAM_BONUS_CAP {
            b
        } else {
            UNIGRAM_BONUS_CAP
        };
        self.learned_unigram.insert_str(reading, surface, bonus);
    }

    /// Learns that `surface` followed `prev_surface`, with a bonus from the
    /// use count capped at the bigram cap.
    pub fn learn_bigram(&mut self, prev_surface: &str, surface: &str, freq: u32)
        requires
            old(self).wf(),
        ensures
            final(self).wf(),
            final(self).same_settings(old(self)),
            final(self).learned_bigram@ == old(self).learned_bigram@.insert(
                (prev_surface@, surface@),
                min_i32(bonus_of(freq), BIGRAM_BONUS_CAP),
            ),
            final(self).learned_unigram@ == old(self).learned_unigram@,
            final(self).learned_assoc@ == old(self).learned_assoc@,
            final(self).learned_hiragana == old(self).learned_hiragana,
    {
        let b = frequency_to_bonus(freq);
        let bonus = if b < BIGRAM_BONUS_CAP {
            b
        } else {
            BIGRAM_BONUS_CAP
        };
        self.learned_bigram.insert_str(prev_surface, surface, bonus);
    }

    /// Learns that the content word `content` came after `prev_content`.
    pub fn learn_assoc(&mut self, prev_content: &str, content: &str, freq: u32)
        requires
            old(self).wf(),
        ensures
            final(self).wf(),
            final(self).same_settings(old(self)),
            final(self).learned_assoc@ == old(self).learned_assoc@.insert((prev_content@, content@), bonus_of(freq)),
            final(self).learned_unigram@ == old(self).learned_unigram@,
            final(self).learned_bigram@ == old(self).learned_bigram@,
            final(self).learned_hiragana == old(self).learned_hiragana,
    {
        let bonus = frequency_to_bonus(freq);
        self.learned_assoc.insert_str(prev_content, content, bonus);
    }
}

pub open spec fn clamp_i32(v: i32, lo: i32, hi: i32) -> i32 {
    if v < lo {
        lo
    } else if v > hi {
        hi
    } else {
        v
    }
}

pub open spec fn min_i32(a: i32, b: i32) -> i32 {
    if a < b {
        a
    } else {
        b
    }
}

} // verus!

verus! {

/// The nodes on the best path to node `i`, following the best
/// predecessors from the begin node.
pub open spec fn opt_chain(m: ConnectionMatrix, big: Map<PairKey, i32>, l: Lattice, i: int) -> Seq<int>
    decreases rank(l, i),
{
    match best_prev(m, big, l, i) {
        Some(j) => if j < l.nodes@.len() && rank(l, j as int) < rank(l, i) && 0 <= rank(l, j as int) {
            opt_chain(m, big, l, j as int).push(i)
        } else {
            seq![i]
        },
        None => seq![i],
    }
}

/// The words on the best path to the end node of `l`.
pub open spec fn opt_words(m: ConnectionMatrix, big: Map<PairKey, i32>, l: Lattice) -> Seq<WordSpec> {
    chain_words(l, opt_chain(m, big, l, l.eos_index as int))
}

/// Two lattices with the same nodes (as far as the search reads them) and
/// the same lists of nodes ending at each offset.
pub open spec fn same_graph(a: Lattice, b: Lattice) -> bool {
    &&& a.bos_index == b.bos_index
    &&& a.eos_index == b.eos_index
    &&& a.nodes@.len() == b.nodes@.len()
    &&& a.len() == b.len()
    &&& forall|i: int| 0 <= i < a.nodes@.len() ==> #[trigger] shape(a.node(i)) == shape(b.node(i))
    &&& forall|p: int| 0 <= p <= a.len() ==> #[trigger] a.ending(p) == b.ending(p)
}

proof fn lemma_sorted_eq(a: Seq<usize>, b: Seq<usize>)
    requires
        forall|x: int, y: int| 0 <= x < y < a.len() ==> #[trigger] a[x] < #[trigger] a[y],
        forall|x: int, y: int| 0 <= x < y < b.len() ==> #[trigger] b[x] < #[trigger] b[y],
        forall|v: usize| a.contains(v) <==> b.contains(v),
    ensures
        a == b,
    decreases a.len(),
{
    if a.len() == 0 {
        if b.len() > 0 {
            assert(b.contains(b[0]));
        }
        assert(a =~= b);
    } else {
        assert(a.contains(a[0]));
        assert(b.contains(b[0]));
        let ia = choose|k: int| 0 <= k < a.len() && a[k] == b[0];
        let ib = choose|k: int| 0 <= k < b.len() && b[k] == a[0];
        if ia > 0 {
            assert(a[0] < a[ia]);
        }
        if ib > 0 {
            assert(b[0] < b[ib]);
        }
        assert(a[0] == b[0]);
        let a1 = a.drop_first();
        let b1 = b.drop_first();
        assert forall|v: usize| a1.contains(v) <==> b1.contains(v) by {
            if a1.contains(v) {
                let k = choose|k: int| 0 <= k < a1.len() && a1[k] == v;
                assert(a[0] < a[k + 1]);
                assert(b.contains(v));
                let j = choose|j: int| 0 <= j < b.len() && b[j] == v;
                assert(j != 0);
                assert(b1[j - 1] == v);
            }
            if b1.contains(v) {
                let k = choose|k: int| 0 <= k < b1.len() && b1[k] == v;
                assert(b[0] < b[k + 1]);
                assert(a.contains(v));
                let j = choose|j: int| 0 <= j < a.len() && a[j] == v;
                assert(j != 0);
                assert(a1[j - 1] == v);
            }
        }
        assert forall|x: int, y: int| 0 <= x < y < a1.len() implies #[trigger] a1[x] < #[trigger] a1[y] by {
            assert(a[x + 1] < a[y + 1]);
        }
        assert forall|x: int, y: int| 0 <= x < y < b1.len() implies #[trigger] b1[x] < #[trigger] b1[y] by {
            assert(b[x + 1] < b[y + 1]);
        }
        lemma_sorted_eq(a1, b1);
        assert(a =~= seq![a[0]] + a1);
        assert(b =~= seq![b[0]] + b1);
    }
}

/// Well-formed, ordered lattices with the same node shapes have the same
/// graph.
pub proof fn lemma_same_graph(a: Lattice, b: Lattice)
    requires
        a.wf(),
        b.wf(),
        a.ordered(),
        b.ordered(),
        a.bos_index == b.bos_index,
        a.eos_index == b.eos_index,
        a.shapes() == b.shapes(),
        a.len() == b.len(),
    ensures
        same_graph(a, b),
{
    assert(a.nodes@.len() == a.shapes().len());
    assert forall|i: int| 0 <= i < a.nodes@.len() implies #[trigger] shape(a.node(i)) == shape(b.node(i)) by {
        assert(a.shapes()[i] == b.shapes()[i]);
        assert(a.shapes()[i] == shape(a.nodes@[i]));
        assert(b.shapes()[i] == shape(b.nodes@[i]));
    }
    assert forall|p: int| 0 <= p <= a.len() implies #[trigger] a.ending(p) == b.ending(p) by {
        let x = a.ending(p);
        let y = b.ending(p);
        assert forall|v: usize| x.contains(v) <==> y.contains(v) by {
            if x.contains(v) {
                let k = choose|k: int| 0 <= k < x.len() && x[k] == v;
                assert(a.node(v as int).end == p);
                assert(shape(a.node(v as int)) == shape(b.node(v as int)));
                assert(b.ending(b.node(v as int).end as int).contains(v as usize));
            }
            if y.contains(v) {
                let k = choose|k: int| 0 <= k < y.len() && y[k] == v;
                assert(b.node(v as int).end == p);
                assert(shape(a.node(v as int)) == shape(b.node(v as int)));
                assert(a.ending(a.node(v as int).end as int).contains(v as usize));
            }
        }
        assert forall|i: int, j: int| 0 <= i < j < x.len() implies #[trigger] x[i] < #[trigger] x[j] by {
            assert(a.ending(p)[i] < a.ending(p)[j]);
        }
        assert forall|i: int, j: int| 0 <= i < j < y.len() implies #[trigger] y[i] < #[trigger] y[j] by {
            assert(b.ending(p)[i] < b.ending(p)[j]);
        }
        lemma_sorted_eq(x, y);
    }
}

proof fn lemma_step_same(m: ConnectionMatrix, big: Map<PairKey, i32>, a1: LatticeNode, b1: LatticeNode, a2: LatticeNode, b2: LatticeNode, x: i32)
    requires
        shape(a1) == shape(a2),
        shape(b1) == shape(b2),
    ensures
        step_cost(m, big, a1, b1, x) == step_cost(m, big, a2, b2, x),
{
    assert(opt_entry_view(a1.entry) == opt_entry_view(a2.entry));
    assert(opt_entry_view(b1.entry) == opt_entry_view(b2.entry));
    assert(edge_conn(m, big, a1, b1) == edge_conn(m, big, a2, b2));
}

/// The search gives the same costs on lattices with the same graph.
proof fn lemma_fold_same(m: ConnectionMatrix, big: Map<PairKey, i32>, a: Lattice, b: Lattice, i: int, k: int)
    requires
        a.wf(),
        same_graph(a, b),
        0 <= i < a.nodes@.len(),
        0 <= k <= a.ending(a.node(i).start as int).len(),
    ensures
        best_fold(m, big, a, i, k) == best_fold(m, big, b, i, k),
    decreases a.node(i).start, k,
{
    reveal_with_fuel(best_fold, 1);
    assert(shape(a.node(i)) == shape(b.node(i)));
    let p = a.node(i).start as int;
    assert(a.node(i).start <= a.node(i).end);
    assert(a.ending(p) == b.ending(p));
    if k > 0 {
        lemma_fold_same(m, big, a, b, i, k - 1);
        let j = a.ending(p)[k - 1];
        assert(j < a.nodes@.len());
        assert(shape(a.node(j as int)) == shape(b.node(j as int)));
        if j != a.bos_index && (a.node(j as int).start as int) < p {
            lemma_total_same(m, big, a, b, j as int);
        }
        lemma_step_same(m, big, a.node(j as int), a.node(i), b.node(j as int), b.node(i), if j == a.bos_index {
            0i32
        } else if (a.node(j as int).start as int) < p {
            best_total(m, big, a, j as int)
        } else {
            i32_max()
        });
    }
}

/// The search gives the same best costs and predecessors on lattices with
/// the same graph.
pub proof fn lemma_total_same(m: ConnectionMatrix, big: Map<PairKey, i32>, a: Lattice, b: Lattice, i: int)
    requires
        a.wf(),
        same_graph(a, b),
        0 <= i < a.nodes@.len(),
    ensures
        best_total(m, big, a, i) == best_total(m, big, b, i),
        best_prev(m, big, a, i) == best_prev(m, big, b, i),
    decreases a.node(i).start, a.ending(a.node(i).start as int).len() + 1,
{
    reveal(best_prev);
    assert(shape(a.node(i)) == shape(b.node(i)));
    let p = a.node(i).start as int;
    assert(a.node(i).start <= a.node(i).end);
    assert(a.ending(p) == b.ending(p));
    if i != a.bos_index {
        lemma_fold_same(m, big, a, b, i, a.ending(p).len() as int);
        lemma_best_unfold(m, big, a, i);
        lemma_best_unfold(m, big, b, i);
    } else {
        reveal_with_fuel(best_total, 1);
    }
}

/// Every node on a best chain is a node of the lattice.
proof fn lemma_opt_chain_range(m: ConnectionMatrix, big: Map<PairKey, i32>, l: Lattice, i: int)
    requires
        0 <= i < l.nodes@.len(),
    ensures
        forall|k: int| 0 <= k < opt_chain(m, big, l, i).len() ==> 0 <= #[trigger] opt_chain(m, big, l, i)[k] < l.nodes@.len(),
        opt_chain(m, big, l, i).len() > 0,
    decreases rank(l, i),
{
    match best_prev(m, big, l, i) {
        Some(j) => {
            if j < l.nodes@.len() && rank(l, j as int) < rank(l, i) && 0 <= rank(l, j as int) {
                lemma_opt_chain_range(m, big, l, j as int);
                let c = opt_chain(m, big, l, j as int);
                assert forall|k: int| 0 <= k < opt_chain(m, big, l, i).len() implies 0 <= #[trigger] opt_chain(m, big, l, i)[k] < l.nodes@.len() by {
                    if k < c.len() {
                        assert(opt_chain(m, big, l, i)[k] == c[k]);
                    }
                }
            }
        },
        None => {},
    }
}

/// After the search, the predecessor chain of a node is its best chain.
proof fn lemma_chain_is_opt(m: ConnectionMatrix, big: Map<PairKey, i32>, orig: Lattice, l: Lattice, i: int)
    requires
        orig.wf(),
        solved(m, big, orig, l),
        0 <= i < l.nodes@.len(),
    ensures
        chain(l, i) == opt_chain(m, big, orig, i),
    decreases rank(l, i),
{
    assert(l.node(i).prev_node == best_prev(m, big, orig, i));
    assert(l.node(i).start == orig.node(i).start);
    match l.node(i).prev_node {
        Some(j) => {
            if j < l.nodes@.len() {
                assert(l.node(j as int).start == orig.node(j as int).start);
                if rank(l, j as int) < rank(l, i) && 0 <= rank(l, j as int) {
                    lemma_chain_is_opt(m, big, orig, l, j as int);
                }
            }
        },
        None => {},
    }
}

/// Chains over nodes with the same words give the same words.
proof fn lemma_words_same(a: Lattice, b: Lattice, c: Seq<int>)
    requires
        forall|k: int| 0 <= k < c.len() ==> opt_entry_view(a.node(#[trigger] c[k]).entry) == opt_entry_view(b.node(c[k]).entry),
    ensures
        chain_words(a, c) == chain_words(b, c),
    decreases c.len(),
{
    if c.len() > 0 {
        assert forall|k: int| 0 <= k < c.drop_last().len() implies opt_entry_view(a.node(#[trigger] c.drop_last()[k]).entry) == opt_entry_view(b.node(c.drop_last()[k]).entry) by {
            assert(c.drop_last()[k] == c[k]);
        }
        lemma_words_same(a, b, c.drop_last());
        assert(opt_entry_view(a.node(c[c.len() - 1]).entry) == opt_entry_view(b.node(c[c.len() - 1]).entry));
    }
}

/// After the search the extracted words are the words of the best chain.
pub proof fn lemma_best_words_opt(m: ConnectionMatrix, big: Map<PairKey, i32>, orig: Lattice, l: Lattice)
    requires
        orig.wf(),
        solved(m, big, orig, l),
    ensures
        best_words(l) == opt_words(m, big, orig),
{
    lemma_chain_is_opt(m, big, orig, l, l.eos_index as int);
    let c = opt_chain(m, big, orig, orig.eos_index as int);
    lemma_opt_chain_range(m, big, orig, orig.eos_index as int);
    assert forall|k: int| 0 <= k < c.len() implies opt_entry_view(l.node(#[trigger] c[k]).entry) == opt_entry_view(orig.node(c[k]).entry) by {
        assert(orig.node(c[k]).entry == l.node(c[k]).entry);
    }
    lemma_words_same(l, orig, c);
}

/// Lattices with the same graph have the same best chains and words.
pub proof fn lemma_opt_same(m: ConnectionMatrix, big: Map<PairKey, i32>, a: Lattice, b: Lattice, i: int)
    requires
        a.wf(),
        same_graph(a, b),
        0 <= i < a.nodes@.len(),
    ensures
        opt_chain(m, big, a, i) == opt_chain(m, big, b, i),
        chain_words(a, opt_chain(m, big, a, i)) == chain_words(b, opt_chain(m, big, b, i)),
    decreases rank(a, i),
{
    lemma_total_same(m, big, a, b, i);
    assert(shape(a.node(i)) == shape(b.node(i)));
    match best_prev(m, big, a, i) {
        Some(j) => {
            if j < a.nodes@.len() {
                assert(shape(a.node(j as int)) == shape(b.node(j as int)));
                if rank(a, j as int) < rank(a, i) && 0 <= rank(a, j as int) {
                    lemma_opt_same(m, big, a, b, j as int);
                }
            }
        },
        None => {},
    }
    let c = opt_chain(m, big, a, i);
    lemma_opt_chain_range(m, big, a, i);
    assert forall|k: int| 0 <= k < c.len() implies opt_entry_view(a.node(#[trigger] c[k]).entry) == opt_entry_view(b.node(c[k]).entry) by {
        assert(shape(a.node(c[k])) == shape(b.node(c[k])));
    }
    lemma_words_same(a, b, c);
}

/// `p` is a path through `l` from the begin node: each node starts where
/// the one before it ends.
pub open spec fn is_path(l: Lattice, p: Seq<int>) -> bool {
    &&& p.len() >= 1
    &&& p[0] == l.bos_index
    &&& forall|k: int| 0 <= k < p.len() ==> 0 <= #[trigger] p[k] < l.nodes@.len()
    &&& forall|k: int|
        1 <= k < p.len() ==> #[trigger] p[k] != l.bos_index && p[k - 1] != l.eos_index && l.node(p[k - 1]).end
            == l.node(p[k]).start
}

/// Cost of the path `p`: connection and word costs added up, saturating.
pub open spec fn path_cost(m: ConnectionMatrix, big: Map<PairKey, i32>, l: Lattice, p: Seq<int>) -> i32
    decreases p.len(),
{
    if p.len() <= 1 {
        0
    } else {
        step_cost(m, big, l.node(p[p.len() - 2]), l.node(p.last()), path_cost(m, big, l, p.drop_last()))
    }
}

proof fn lemma_step_monotone(m: ConnectionMatrix, big: Map<PairKey, i32>, a: LatticeNode, b: LatticeNode, x: i32, y: i32)
    requires
        x <= y,
    ensures
        step_cost(m, big, a, b, x) <= step_cost(m, big, a, b, y),
{
}

proof fn lemma_fold_nonincreasing(m: ConnectionMatrix, big: Map<PairKey, i32>, l: Lattice, i: int, a: int, b: int)
    requires
        0 <= a <= b,
    ensures
        best_fold(m, big, l, i, b).0 <= best_fold(m, big, l, i, a).0,
    decreases b - a,
{
    reveal_with_fuel(best_fold, 1);
    if a < b {
        lemma_fold_nonincreasing(m, big, l, i, a, b - 1);
    }
}

proof fn lemma_fold_le_candidate(m: ConnectionMatrix, big: Map<PairKey, i32>, l: Lattice, i: int, q: int, k: int)
    requires
        0 <= q < k,
        ({
            let p = l.node(i).start as int;
            let j = l.ending(p)[q];
            j == l.bos_index || (l.node(j as int).start as int) < p
        }),
    ensures
        ({
            let p = l.node(i).start as int;
            let j = l.ending(p)[q];
            let xj = if j == l.bos_index { 0i32 } else { best_total(m, big, l, j as int) };
            xj != i32_max() ==> best_fold(m, big, l, i, k).0 <= step_cost(m, big, l.node(j as int), l.node(i), xj)
        }),
{
    reveal_with_fuel(best_fold, 1);
    lemma_fold_nonincreasing(m, big, l, i, q + 1, k);
}

/// No path to a node costs less than the cost the search gives the node,
/// as long as the path's cost stays below the largest `i32` along the way.
pub proof fn law_best_total_is_minimal(m: ConnectionMatrix, big: Map<PairKey, i32>, l: Lattice, p: Seq<int>)
    requires
        l.wf(),
        is_path(l, p),
        forall|q: int| 1 <= q <= p.len() ==> #[trigger] path_cost(m, big, l, p.take(q)) < i32_max(),
    ensures
        best_total(m, big, l, p.last()) <= path_cost(m, big, l, p),
    decreases p.len(),
{
    reveal_with_fuel(best_total, 1);
    if p.len() == 1 {
        assert(p.take(1) =~= p);
    } else {
        let n = p.len();
        let pre = p.drop_last();
        assert forall|q: int| 1 <= q <= pre.len() implies #[trigger] path_cost(m, big, l, pre.take(q)) < i32_max() by {
            assert(pre.take(q) =~= p.take(q));
        }
        assert(is_path(l, pre)) by {
            assert forall|k: int| 0 <= k < pre.len() implies 0 <= #[trigger] pre[k] < l.nodes@.len() by {
                assert(pre[k] == p[k]);
            }
            assert forall|k: int| 1 <= k < pre.len() implies #[trigger] pre[k] != l.bos_index && pre[k - 1] != l.eos_index && l.node(pre[k - 1]).end == l.node(pre[k]).start by {
                assert(pre[k] == p[k]);
                assert(pre[k - 1] == p[k - 1]);
            }
        }
        law_best_total_is_minimal(m, big, l, pre);
        assert(pre.take(pre.len() as int) =~= pre);
        assert(p.take(n as int) =~= p);
        let i = p[n - 1];
        let j = p[n - 2];
        assert(pre.last() == j);
        assert(i != l.bos_index && j != l.eos_index && l.node(j).end == l.node(i).start);
        let pos = l.node(i).start as int;
        assert(l.node(j).start <= l.node(j).end);
        assert(l.node(i).start <= l.node(i).end);
        assert(l.ending(l.node(j).end as int).contains(j as usize));
        let q = choose|q: int| 0 <= q < l.ending(pos).len() && l.ending(pos)[q] == j as usize;
        if j != l.bos_index {
            assert(l.node(j).start < l.node(j).end);
        }
        lemma_fold_le_candidate(m, big, l, i, q, l.ending(pos).len() as int);
        lemma_best_unfold(m, big, l, i);
        let xj = if j == l.bos_index { 0i32 } else { best_total(m, big, l, j) };
        assert(xj <= path_cost(m, big, l, pre));
        lemma_step_monotone(m, big, l.node(j), l.node(i), xj, path_cost(m, big, l, pre));
    }
}

proof fn lemma_fold_some(m: ConnectionMatrix, big: Map<PairKey, i32>, l: Lattice, i: int, k: int)
    requires
        0 <= k <= l.ending(l.node(i).start as int).len(),
    ensures
        best_fold(m, big, l, i, k).1 is None ==> best_fold(m, big, l, i, k).0 == i32_max(),
        best_fold(m, big, l, i, k).1 matches Some(j) ==> exists|q: int|
            0 <= q < k && #[trigger] l.ending(l.node(i).start as int)[q] == j && ({
                let xj = if j == l.bos_index {
                    0i32
                } else if (l.node(j as int).start as int) < (l.node(i).start as int) {
                    best_total(m, big, l, j as int)
                } else {
                    i32_max()
                };
                &&& xj != i32_max()
                &&& best_fold(m, big, l, i, k).0 == step_cost(m, big, l.node(j as int), l.node(i), xj)
            }),
    decreases k,
{
    reveal_with_fuel(best_fold, 1);
    if k > 0 {
        lemma_fold_some(m, big, l, i, k - 1);
    }
}

/// The best chain of a node the search reaches is a path from the begin
/// node to it, and it costs what the search gives the node.
pub proof fn law_best_chain_achieves(m: ConnectionMatrix, big: Map<PairKey, i32>, l: Lattice, i: int)
    requires
        l.wf(),
        0 <= i < l.nodes@.len(),
        best_total(m, big, l, i) < i32_max(),
    ensures
        is_path(l, opt_chain(m, big, l, i)),
        opt_chain(m, big, l, i).last() == i,
        path_cost(m, big, l, opt_chain(m, big, l, i)) == best_total(m, big, l, i),
    decreases rank(l, i),
{
    reveal(best_prev);
    reveal_with_fuel(best_total, 1);
    if i == l.bos_index {
        assert(opt_chain(m, big, l, i) =~= seq![i]);
    } else {
        let p = l.node(i).start as int;
        assert(l.node(i).start <= l.node(i).end);
        let k = l.ending(p).len() as int;
        lemma_best_unfold(m, big, l, i);
        lemma_fold_some(m, big, l, i, k);
        let j = best_fold(m, big, l, i, k).1->0;
        let q = choose|q: int| 0 <= q < k && #[trigger] l.ending(p)[q] == j && ({
            let xj = if j == l.bos_index {
                0i32
            } else if (l.node(j as int).start as int) < p {
                best_total(m, big, l, j as int)
            } else {
                i32_max()
            };
            &&& xj != i32_max()
            &&& best_fold(m, big, l, i, k).0 == step_cost(m, big, l.node(j as int), l.node(i), xj)
        });
        assert(j < l.nodes@.len() && l.node(j as int).end == p && j != l.eos_index);
        if j != l.bos_index {
            assert(l.node(j as int).start < l.node(j as int).end);
        }
        assert(rank(l, j as int) < rank(l, i));
        if j != l.bos_index {
            law_best_chain_achieves(m, big, l, j as int);
        } else {
            assert(opt_chain(m, big, l, j as int) =~= seq![j as int]);
        }
        let c = opt_chain(m, big, l, j as int);
        let ci = opt_chain(m, big, l, i);
        assert(ci == c.push(i));
        assert(ci.drop_last() =~= c);
        assert(c.last() == j);
        assert(ci[ci.len() - 2] == j) by {
            assert(ci[ci.len() - 2] == c[c.len() - 1]);
        }
        assert(is_path(l, ci)) by {
            assert forall|t: int| 0 <= t < ci.len() implies 0 <= #[trigger] ci[t] < l.nodes@.len() by {
                if t < c.len() {
                    assert(ci[t] == c[t]);
                }
            }
            assert forall|t: int| 1 <= t < ci.len() implies #[trigger] ci[t] != l.bos_index && ci[t - 1] != l.eos_index && l.node(ci[t - 1]).end == l.node(ci[t]).start by {
                if t < c.len() {
                    assert(ci[t] == c[t]);
                    assert(ci[t - 1] == c[t - 1]);
                } else {
                    assert(ci[t - 1] == c[c.len() - 1]);
                }
            }
            assert(ci[0] == c[0]);
        }
        assert(ci.len() >= 2);
        assert(ci.last() == i);
        assert(path_cost(m, big, l, ci) == step_cost(m, big, l.node(ci[ci.len() - 2]), l.node(ci.last()), path_cost(m, big, l, ci.drop_last())));
        let xj = if j == l.bos_index { 0i32 } else { best_total(m, big, l, j as int) };
        if j == l.bos_index {
            assert(path_cost(m, big, l, c) == 0);
        }
        assert(path_cost(m, big, l, c) == xj);
        assert(best_total(m, big, l, i) == step_cost(m, big, l.node(j as int), l.node(i), xj));
    }
}

/// Paths, their costs and their words carry over between lattices with the
/// same graph.
pub proof fn lemma_path_same(m: ConnectionMatrix, big: Map<PairKey, i32>, a: Lattice, b: Lattice, p: Seq<int>)
    requires
        same_graph(a, b),
        is_path(a, p),
    ensures
        is_path(b, p),
        path_cost(m, big, a, p) == path_cost(m, big, b, p),
        chain_words(a, p) == chain_words(b, p),
    decreases p.len(),
{
    assert forall|k: int| 0 <= k < p.len() implies #[trigger] shape(a.node(p[k])) == shape(b.node(p[k])) by {
        assert(0 <= p[k] < a.nodes@.len());
    }
    assert forall|k: int| 1 <= k < p.len() implies #[trigger] p[k] != b.bos_index && p[k - 1] != b.eos_index && b.node(p[k - 1]).end == b.node(p[k]).start by {
        assert(shape(a.node(p[k])) == shape(b.node(p[k])));
        assert(shape(a.node(p[k - 1])) == shape(b.node(p[k - 1])));
    }
    assert forall|k: int| 0 <= k < p.len() implies opt_entry_view(a.node(#[trigger] p[k]).entry) == opt_entry_view(b.node(p[k]).entry) by {
        assert(shape(a.node(p[k])) == shape(b.node(p[k])));
    }
    lemma_words_same(a, b, p);
    if p.len() > 1 {
        let q = p.drop_last();
        assert(is_path(a, q)) by {
            assert forall|k: int| 0 <= k < q.len() implies 0 <= #[trigger] q[k] < a.nodes@.len() by {
                assert(q[k] == p[k]);
            }
            assert forall|k: int| 1 <= k < q.len() implies #[trigger] q[k] != a.bos_index && q[k - 1] != a.eos_index && a.node(q[k - 1]).end == a.node(q[k]).start by {
                assert(q[k] == p[k]);
                assert(q[k - 1] == p[k - 1]);
            }
        }
        lemma_path_same(m, big, a, b, q);
        assert(shape(a.node(p[p.len() - 2])) == shape(b.node(p[p.len() - 2])));
        assert(shape(a.node(p[p.len() - 1])) == shape(b.node(p[p.len() - 1])));
        lemma_step_same(m, big, a.node(p[p.len() - 2]), a.node(p.last()), b.node(p[p.len() - 2]), b.node(p.last()), path_cost(m, big, a, q));
    }
}

/// Connection cost from `a` to `b` plus the word cost of `b`, as a plain
/// integer: no learned bonus and no saturation.
pub open spec fn plain_step(m: ConnectionMatrix, a: LatticeNode, b: LatticeNode) -> int {
    m.spec_get(a.right_id, b.left_id) as int + b.word_cost as int
}

/// The costs a lattice carries solve the plain search equations: the begin
/// node costs nothing; no node costs more than a reached predecessor plus
/// the step from it; and each reached node other than the begin node costs
/// exactly that much more than one of its reached predecessors.
pub open spec fn plain_solved(m: ConnectionMatrix, l: Lattice) -> bool {
    &&& l.node(l.bos_index as int).total_cost == 0
    &&& forall|i: int, q: int|
        0 <= i < l.nodes@.len() && i != l.bos_index && 0 <= q < l.ending(l.node(i).start as int).len()
            && l.node(#[trigger] l.ending(l.node(i).start as int)[q] as int).total_cost != i32_max()
            ==> l.node(i).total_cost <= l.node(l.ending(l.node(i).start as int)[q] as int).total_cost
            + plain_step(m, l.node(l.ending(l.node(i).start as int)[q] as int), l.node(i))
    &&& forall|i: int|
        0 <= i < l.nodes@.len() && i != l.bos_index && #[trigger] l.node(i).total_cost != i32_max() ==> exists|q: int|
            0 <= q < l.ending(l.node(i).start as int).len() && l.node(
                #[trigger] l.ending(l.node(i).start as int)[q] as int,
            ).total_cost != i32_max() && l.node(i).total_cost == l.node(
                l.ending(l.node(i).start as int)[q] as int,
            ).total_cost + plain_step(m, l.node(l.ending(l.node(i).start as int)[q] as int), l.node(i))
}

/// Every step of the search from a node it reaches stays within `i32`: the
/// predecessor's best cost plus the connection cost, and that plus the word
/// cost.
pub open spec fn steps_in_range(m: ConnectionMatrix, big: Map<PairKey, i32>, l: Lattice) -> bool {
    forall|i: int, q: int|
        0 <= i < l.nodes@.len() && i != l.bos_index && 0 <= q < l.ending(l.node(i).start as int).len()
            && best_total(m, big, l, #[trigger] l.ending(l.node(i).start as int)[q] as int) != i32_max() ==> {
            let j = l.ending(l.node(i).start as int)[q] as int;
            let x = best_total(m, big, l, j) as int;
            &&& -0x8000_0000 <= x + m.spec_get(l.node(j).right_id, l.node(i).left_id) <= 0x7FFF_FFFF
            &&& -0x8000_0000 <= x + plain_step(m, l.node(j), l.node(i)) <= 0x7FFF_FFFF
        }
}

/// Steps in range carry over to a lattice with the same graph.
pub proof fn lemma_steps_in_range_same(m: ConnectionMatrix, big: Map<PairKey, i32>, a: Lattice, b: Lattice)
    requires
        a.wf(),
        same_graph(a, b),
        steps_in_range(m, big, a),
    ensures
        steps_in_range(m, big, b),
{
    assert forall|i: int, q: int|
        0 <= i < b.nodes@.len() && i != b.bos_index && 0 <= q < b.ending(b.node(i).start as int).len()
            && best_total(m, big, b, #[trigger] b.ending(b.node(i).start as int)[q] as int) != i32_max() implies {
            let j = b.ending(b.node(i).start as int)[q] as int;
            let x = best_total(m, big, b, j) as int;
            &&& -0x8000_0000 <= x + m.spec_get(b.node(j).right_id, b.node(i).left_id) <= 0x7FFF_FFFF
            &&& -0x8000_0000 <= x + plain_step(m, b.node(j), b.node(i)) <= 0x7FFF_FFFF
        } by {
        assert(shape(a.node(i)) == shape(b.node(i)));
        let p = a.node(i).start as int;
        assert(a.node(i).start <= a.node(i).end);
        assert(a.ending(p) == b.ending(p));
        let j = a.ending(p)[q] as int;
        assert(0 <= j < a.nodes@.len());
        assert(shape(a.node(j)) == shape(b.node(j)));
        lemma_total_same(m, big, a, b, j);
    }
}

/// With no learned connections and every step in range, the costs of a
/// solved lattice solve the plain search equations.
pub proof fn lemma_plain_solved(m: ConnectionMatrix, orig: Lattice, l: Lattice)
    requires
        orig.wf(),
        solved(m, Map::<PairKey, i32>::empty(), orig, l),
        steps_in_range(m, Map::<PairKey, i32>::empty(), orig),
    ensures
        plain_solved(m, l),
{
    let big = Map::<PairKey, i32>::empty();
    assert(l.node(l.bos_index as int).total_cost == 0) by {
        reveal_with_fuel(best_total, 1);
        assert(l.node(l.bos_index as int).total_cost == best_total(m, big, orig, orig.bos_index as int));
    }
    assert forall|i: int, q: int|
        0 <= i < l.nodes@.len() && i != l.bos_index && 0 <= q < l.ending(l.node(i).start as int).len()
            && l.node(#[trigger] l.ending(l.node(i).start as int)[q] as int).total_cost != i32_max()
        implies l.node(i).total_cost <= l.node(l.ending(l.node(i).start as int)[q] as int).total_cost
            + plain_step(m, l.node(l.ending(l.node(i).start as int)[q] as int), l.node(i)) by {
        let p = orig.node(i).start as int;
        assert(orig.node(i).start == l.node(i).start);
        assert(orig.node(i).start <= orig.node(i).end);
        let k = orig.ending(p).len() as int;
        let j = orig.ending(p)[q] as int;
        assert(0 <= j < orig.nodes@.len());
        assert(orig.node(j as int).end == p);
        if j != orig.bos_index {
            assert(orig.node(j).start < orig.node(j).end);
        }
        lemma_fold_le_candidate(m, big, orig, i, q, k);
        lemma_best_unfold(m, big, orig, i);
        reveal_with_fuel(best_total, 1);
        let x = best_total(m, big, orig, j);
        assert(l.node(j).total_cost == x);
        assert(orig.node(j).right_id == l.node(j).right_id);
        assert(orig.node(i).left_id == l.node(i).left_id);
        assert(orig.node(i).word_cost == l.node(i).word_cost);
    }
    assert forall|i: int|
        0 <= i < l.nodes@.len() && i != l.bos_index && #[trigger] l.node(i).total_cost != i32_max() implies exists|q: int|
            0 <= q < l.ending(l.node(i).start as int).len() && l.node(
                #[trigger] l.ending(l.node(i).start as int)[q] as int,
            ).total_cost != i32_max() && l.node(i).total_cost == l.node(
                l.ending(l.node(i).start as int)[q] as int,
            ).total_cost + plain_step(m, l.node(l.ending(l.node(i).start as int)[q] as int), l.node(i)) by {
        let p = orig.node(i).start as int;
        assert(orig.node(i).start == l.node(i).start);
        assert(orig.node(i).start <= orig.node(i).end);
        let k = orig.ending(p).len() as int;
        lemma_best_unfold(m, big, orig, i);
        lemma_fold_some(m, big, orig, i, k);
        let j = best_fold(m, big, orig, i, k).1->0;
        let q = choose|q: int| 0 <= q < k && #[trigger] orig.ending(p)[q] == j && ({
            let xj = if j == orig.bos_index {
                0i32
            } else if (orig.node(j as int).start as int) < p {
                best_total(m, big, orig, j as int)
            } else {
                i32_max()
            };
            &&& xj != i32_max()
            &&& best_fold(m, big, orig, i, k).0 == step_cost(m, big, orig.node(j as int), orig.node(i), xj)
        });
        assert(0 <= j < orig.nodes@.len());
        reveal_with_fuel(best_total, 1);
        let x = best_total(m, big, orig, j as int);
        assert(l.node(j as int).total_cost == x);
        assert(orig.node(j as int).right_id == l.node(j as int).right_id);
        assert(orig.node(i).left_id == l.node(i).left_id);
        assert(orig.node(i).word_cost == l.node(i).word_cost);
        assert(l.ending(l.node(i).start as int)[q] == j);
    }
}
} // verus!
