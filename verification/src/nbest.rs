//! Several conversions of one reading: a backward best-first search over
//! the solved lattice, cheapest estimate first, one result per surface.

use vstd::prelude::*;
use crate::dictionary::{ConnectionMatrix, Dictionary, WordEntry, WordSpec, entries_view, byte_len, utf8_len};
use crate::lattice::{Lattice, LatticeNode, i32_max, opt_entry_view, shape};
use crate::learned::PairKey;
use crate::viterbi::{ViterbiConverter, is_path, chain_words, same_graph, solved, best_total,
    lemma_same_graph, lemma_total_same, lemma_solved_ranked, lemma_path_same, plain_step, plain_solved,
    steps_in_range, lemma_steps_in_range_same, lemma_plain_solved};
use crate::convert::{join_surfaces, concat_surfaces};
use crate::construct::{lemma_utf8_ge_len, lemma_offset_lt, law_nodes_read_input, offset, reads_span, reads_input};
use crate::dictionary::filed_by_reading;
use crate::text::{chars_of, chars_eq};

verus! {

/// A partial path of the backward search.
struct PartialPath {
    /// Estimated cost of the whole path: `cost` plus the best cost of the
    /// head node.
    f_cost: i128,
    /// Cost from the head node to the end node.
    cost: i128,
    /// Leftmost node reached so far.
    head_node: usize,
    /// The nodes from the end node back to the head node.
    path: Vec<usize>,
}

/// `p` runs backwards from the end node: each node ends where the one
/// before it starts.
pub open spec fn back_chain(l: Lattice, p: Seq<usize>) -> bool {
    &&& p.len() >= 1
    &&& p[0] == l.eos_index
    &&& forall|k: int| 0 <= k < p.len() ==> #[trigger] p[k] < l.nodes@.len()
    &&& forall|k: int|
        1 <= k < p.len() ==> #[trigger] p[k] != l.eos_index && p[k - 1] != l.bos_index && l.node(p[k] as int).end
            == l.node(p[k - 1] as int).start
}

/// The forward path of a backward chain.
pub open spec fn forward(p: Seq<usize>) -> Seq<int> {
    p.reverse().map_values(|x: usize| x as int)
}

/// `ws` are the words of a path from the begin node to the end node.
pub open spec fn words_of_full_path(l: Lattice, ws: Seq<WordSpec>) -> bool {
    exists|p: Seq<int>| is_path(l, p) && p.last() == l.eos_index && #[trigger] chain_words(l, p) == ws
}

/// `s` is the surface string of a path from the begin node to the end node.
pub open spec fn string_of_full_path(l: Lattice, s: Seq<char>) -> bool {
    exists|ws: Seq<WordSpec>| #[trigger] words_of_full_path(l, ws) && s == join_surfaces(ws)
}

/// The surfaces of the results are pairwise distinct.
pub open spec fn distinct_surfaces(rs: Seq<Vec<WordEntry>>) -> bool {
    forall|i: int, j: int|
        0 <= i < j < rs.len() ==> join_surfaces(entries_view(#[trigger] rs[i]@)) != join_surfaces(entries_view(#[trigger] rs[j]@))
}

/// Plain cost of a path from the begin node: its steps added up.
pub open spec fn plain_cost(m: ConnectionMatrix, l: Lattice, p: Seq<int>) -> int
    decreases p.len(),
{
    if p.len() <= 1 {
        0
    } else {
        plain_cost(m, l, p.drop_last()) + plain_step(m, l.node(p[p.len() - 2]), l.node(p.last()))
    }
}

/// Plain cost of a backward chain, from its head node to the end node.
pub open spec fn back_cost(m: ConnectionMatrix, l: Lattice, p: Seq<usize>) -> int
    decreases p.len(),
{
    if p.len() <= 1 {
        0
    } else {
        back_cost(m, l, p.drop_last()) + plain_step(m, l.node(p.last() as int), l.node(p[p.len() - 2] as int))
    }
}

/// How far node `i` lies from the begin node: one more than its start,
/// and none for the begin node itself.
pub open spec fn head_rank(l: Lattice, i: int) -> int {
    if i == l.bos_index {
        0
    } else {
        l.node(i).start as int + 1
    }
}

proof fn lemma_plain_cost_prepend(m: ConnectionMatrix, l: Lattice, a: int, q: Seq<int>)
    requires
        q.len() >= 1,
    ensures
        plain_cost(m, l, seq![a] + q) == plain_step(m, l.node(a), l.node(q[0])) + plain_cost(m, l, q),
    decreases q.len(),
{
    let s = seq![a] + q;
    if q.len() == 1 {
        assert(s.drop_last() =~= seq![a]);
        assert(s[0] == a && s[1] == q[0]);
        assert(plain_cost(m, l, s) == plain_cost(m, l, seq![a]) + plain_step(m, l.node(s[0]), l.node(s[1])));
    } else {
        let d = q.drop_last();
        assert(s.drop_last() =~= seq![a] + d);
        lemma_plain_cost_prepend(m, l, a, d);
        assert(s[s.len() - 2] == q[q.len() - 2]);
        assert(s.last() == q.last());
        assert(d[0] == q[0]);
        assert(plain_cost(m, l, s) == plain_cost(m, l, s.drop_last()) + plain_step(m, l.node(s[s.len() - 2]), l.node(s.last())));
        assert(plain_cost(m, l, q) == plain_cost(m, l, d) + plain_step(m, l.node(q[q.len() - 2]), l.node(q.last())));
    }
}

proof fn lemma_forward_cost(m: ConnectionMatrix, l: Lattice, p: Seq<usize>)
    requires
        p.len() >= 1,
    ensures
        plain_cost(m, l, forward(p)) == back_cost(m, l, p),
    decreases p.len(),
{
    let n = p.len();
    if n > 1 {
        let d = p.drop_last();
        assert(forward(p) =~= seq![p.last() as int] + forward(d));
        lemma_forward_cost(m, l, d);
        assert(forward(d)[0] == d.last() as int);
        lemma_plain_cost_prepend(m, l, p.last() as int, forward(d));
    }
}

proof fn lemma_plain_cost_same(m: ConnectionMatrix, a: Lattice, b: Lattice, p: Seq<int>)
    requires
        same_graph(a, b),
        forall|k: int| 0 <= k < p.len() ==> 0 <= #[trigger] p[k] < a.nodes@.len(),
    ensures
        plain_cost(m, a, p) == plain_cost(m, b, p),
    decreases p.len(),
{
    if p.len() > 1 {
        let d = p.drop_last();
        assert forall|k: int| 0 <= k < d.len() implies 0 <= #[trigger] d[k] < a.nodes@.len() by {
            assert(d[k] == p[k]);
        }
        lemma_plain_cost_same(m, a, b, d);
        assert(0 <= p[p.len() - 2] < a.nodes@.len());
        assert(0 <= p[p.len() - 1] < a.nodes@.len());
        assert(shape(a.node(p[p.len() - 2])) == shape(b.node(p[p.len() - 2])));
        assert(shape(a.node(p.last())) == shape(b.node(p.last())));
    }
}

proof fn lemma_order_same(
    m: ConnectionMatrix,
    big: Map<PairKey, i32>,
    a: Lattice,
    b: Lattice,
    rs: Seq<Vec<WordEntry>>,
    ps: Seq<Seq<int>>,
)
    requires
        same_graph(a, b),
        paths_in_cost_order(m, a, rs, ps),
    ensures
        paths_in_cost_order(m, b, rs, ps),
{
    assert forall|i: int| 0 <= i < ps.len() implies is_path(b, #[trigger] ps[i]) && ps[i].last() == b.eos_index
        && chain_words(b, ps[i]) == entries_view(rs[i]@) && plain_cost(m, a, ps[i]) == plain_cost(m, b, ps[i]) by {
        lemma_path_same(m, big, a, b, ps[i]);
        lemma_plain_cost_same(m, a, b, ps[i]);
    }
    assert forall|i: int, j: int| 0 <= i < j < ps.len() implies plain_cost(m, b, #[trigger] ps[i]) <= plain_cost(
        m,
        b,
        #[trigger] ps[j],
    ) by {
        lemma_path_same(m, big, a, b, ps[i]);
        lemma_plain_cost_same(m, a, b, ps[i]);
        lemma_path_same(m, big, a, b, ps[j]);
        lemma_plain_cost_same(m, a, b, ps[j]);
    }
}

/// `p` runs backwards from the end node through nodes that `reach` admits
/// (the end node itself aside).
pub open spec fn reached_chain(l: Lattice, reach: spec_fn(int) -> bool, p: Seq<usize>) -> bool {
    &&& back_chain(l, p)
    &&& forall|k: int| 1 <= k < p.len() ==> reach(#[trigger] p[k] as int)
}

/// A reached chain that ends at the begin node: a whole path, backwards.
pub open spec fn full_reached(l: Lattice, reach: spec_fn(int) -> bool, p: Seq<usize>) -> bool {
    reached_chain(l, reach, p) && p.last() == l.bos_index
}

/// The surface of the words on the backward chain `p`.
pub open spec fn chain_surface(l: Lattice, p: Seq<usize>) -> Seq<char> {
    join_surfaces(chain_words(l, forward(p)))
}

/// `s` holds every reached chain of `l`.
pub open spec fn chain_cover(l: Lattice, reach: spec_fn(int) -> bool, s: Set<Seq<usize>>) -> bool {
    forall|p: Seq<usize>| reached_chain(l, reach, p) ==> #[trigger] s.contains(p)
}

/// Fewer than `b` partial paths run backwards from the end node of `l`
/// through nodes that `reach` admits.
pub open spec fn few_chains(l: Lattice, reach: spec_fn(int) -> bool, b: nat) -> bool {
    exists|s: Set<Seq<usize>>| #[trigger] chain_cover(l, reach, s) && s.finite() && s.len() < b
}

/// Every path of `l` from the begin node to the end node through nodes that
/// `reach` admits has its surface among the surfaces of `rs`.
pub open spec fn surfaces_complete(l: Lattice, reach: spec_fn(int) -> bool, rs: Seq<Vec<WordEntry>>) -> bool {
    forall|p: Seq<int>|
        is_path(l, p) && p.last() == l.eos_index && (forall|k: int| 0 <= k < p.len() - 1 ==> reach(#[trigger] p[k]))
            ==> exists|i: int| 0 <= i < rs.len() && join_surfaces(entries_view(#[trigger] rs[i]@)) == join_surfaces(
            chain_words(l, p),
        )
}

spec fn prefix_of(a: Seq<usize>, f: Seq<usize>) -> bool {
    a.len() <= f.len() && f.take(a.len() as int) == a
}

#[verifier::opaque]
spec fn covered(l: Lattice, heap: Seq<PartialPath>, seen: Seq<Vec<char>>, f: Seq<usize>) -> bool {
    (exists|h: int| 0 <= h < heap.len() && prefix_of(#[trigger] heap[h].path@, f)) || (exists|i: int|
        0 <= i < seen.len() && (#[trigger] seen[i])@ == chain_surface(l, f))
}

#[verifier::opaque]
spec fn all_covered(l: Lattice, reach: spec_fn(int) -> bool, heap: Seq<PartialPath>, seen: Seq<Vec<char>>) -> bool {
    forall|f: Seq<usize>| #[trigger] full_reached(l, reach, f) ==> covered(l, heap, seen, f)
}

/// A path, read backwards.
spec fn backwards(p: Seq<int>) -> Seq<usize> {
    Seq::new(p.len(), |k: int| p[p.len() - 1 - k] as usize)
}

proof fn lemma_path_backwards(l: Lattice, reach: spec_fn(int) -> bool, p: Seq<int>)
    requires
        l.wf(),
        is_path(l, p),
        p.last() == l.eos_index,
        forall|k: int| 0 <= k < p.len() - 1 ==> reach(#[trigger] p[k]),
    ensures
        full_reached(l, reach, backwards(p)),
        forward(backwards(p)) == p,
{
    let n = p.len();
    let f = backwards(p);
    assert(n >= 2) by {
        if n == 1 {
            assert(p[0] == l.bos_index);
        }
    }
    assert forall|k: int| 0 <= k < n implies #[trigger] f[k] == p[n - 1 - k] as usize && 0 <= p[n - 1 - k] < l.nodes@.len() by {}
    assert forall|k: int| 0 <= k < f.len() implies #[trigger] f[k] < l.nodes@.len() by {
        assert(f[k] == p[n - 1 - k] as usize);
    }
    assert forall|k: int| 1 <= k < f.len() implies #[trigger] f[k] != l.eos_index && f[k - 1] != l.bos_index
        && l.node(f[k] as int).end == l.node(f[k - 1] as int).start by {
        assert(f[k] == p[n - 1 - k] as usize);
        assert(f[k - 1] == p[n - k] as usize);
        let j = n - k;
        assert(1 <= j < n);
        assert(p[j] != l.bos_index && p[j - 1] != l.eos_index && l.node(p[j - 1]).end == l.node(p[j]).start);
    }
    assert forall|k: int| 1 <= k < f.len() implies reach(#[trigger] f[k] as int) by {
        assert(f[k] == p[n - 1 - k] as usize);
        assert(0 <= n - 1 - k < n - 1);
    }
    assert(f[0] == p[n - 1] as usize);
    assert(f.last() == p[0] as usize);
    assert(forward(f) =~= p) by {
        assert forall|k: int| 0 <= k < n implies #[trigger] forward(f)[k] == p[k] by {
            assert(forward(f)[k] == f[n - 1 - k] as int);
            assert(f[n - 1 - k] == p[k] as usize);
        }
    }
}

/// The bookkeeping of the search over the partial paths it has taken out
/// (`popped`) and those on its list: all are reached chains; each taken out
/// or listed chain longer than the end node alone extends a chain taken
/// out; and, when the lists of nodes ending at each offset are increasing
/// (`t`), no listed chain was taken out and no chain is listed twice.
#[verifier::opaque]
spec fn sets_ok(l: Lattice, reach: spec_fn(int) -> bool, heap: Seq<PartialPath>, popped: Set<Seq<usize>>, t: bool) -> bool {
    &&& popped.finite()
    &&& forall|h: int| 0 <= h < heap.len() ==> reached_chain(l, reach, #[trigger] heap[h].path@)
    &&& forall|p: Seq<usize>| #[trigger] popped.contains(p) ==> reached_chain(l, reach, p)
    &&& closed_down(popped)
    &&& forall|h: int| 0 <= h < heap.len() && (#[trigger] heap[h]).path@.len() >= 2 ==> popped.contains(heap[h].path@.drop_last())
    &&& t ==> forall|h: int| 0 <= h < heap.len() ==> !popped.contains(#[trigger] heap[h].path@)
    &&& t ==> forall|h1: int, h2: int|
        0 <= h1 < heap.len() && 0 <= h2 < heap.len() && h1 != h2 ==> (#[trigger] heap[h1]).path@ != (
        #[trigger] heap[h2]).path@
}

/// Every chain of `s` longer than one node extends a chain of `s`.
#[verifier::opaque]
spec fn closed_down(s: Set<Seq<usize>>) -> bool {
    forall|p: Seq<usize>| #[trigger] s.contains(p) && p.len() >= 2 ==> s.contains(p.drop_last())
}

proof fn lemma_sets_init(l: Lattice, reach: spec_fn(int) -> bool, heap: Seq<PartialPath>, t: bool)
    requires
        l.wf(),
        heap.len() == 1,
        heap[0].path@ == seq![l.eos_index],
    ensures
        sets_ok(l, reach, heap, Set::<Seq<usize>>::empty(), t),
{
    reveal(sets_ok);
    reveal(closed_down);
    assert(back_chain(l, heap[0].path@));
}

proof fn lemma_sets_pop(
    l: Lattice,
    reach: spec_fn(int) -> bool,
    hv: Seq<PartialPath>,
    heap: Seq<PartialPath>,
    best: int,
    popped: Set<Seq<usize>>,
    t: bool,
)
    requires
        sets_ok(l, reach, hv, popped, t),
        0 <= best < hv.len(),
        heap == hv.remove(best),
    ensures
        sets_ok(l, reach, heap, popped.insert(hv[best].path@), t),
        reached_chain(l, reach, hv[best].path@),
        popped.insert(hv[best].path@).finite(),
        closed_down(popped),
        t ==> !popped.contains(hv[best].path@),
        t ==> popped.insert(hv[best].path@).len() == popped.len() + 1,
        t ==> forall|h: int| 0 <= h < heap.len() && (#[trigger] heap[h]).path@.len() >= 2 ==> heap[h].path@.drop_last() != hv[best].path@,
{
    reveal(sets_ok);
    let cp = hv[best].path@;
    let np = popped.insert(cp);
    assert(reached_chain(l, reach, cp));
    assert forall|h: int| 0 <= h < heap.len() implies heap[h] == (if h < best { hv[h] } else { hv[h + 1] }) by {}
    assert forall|h: int| 0 <= h < heap.len() implies reached_chain(l, reach, #[trigger] heap[h].path@) by {
        if h >= best {
            assert(heap[h] == hv[h + 1]);
        }
    }
    assert(closed_down(np)) by {
        reveal(closed_down);
        assert forall|p: Seq<usize>| #[trigger] np.contains(p) && p.len() >= 2 implies np.contains(p.drop_last()) by {
            if p != cp {
                assert(popped.contains(p));
            }
        }
    }
    assert forall|h: int| 0 <= h < heap.len() && (#[trigger] heap[h]).path@.len() >= 2 implies np.contains(heap[h].path@.drop_last()) by {
        if h >= best {
            assert(heap[h] == hv[h + 1]);
        }
    }
    if t {
        assert(!popped.contains(cp));
        assert forall|h: int| 0 <= h < heap.len() implies !np.contains(#[trigger] heap[h].path@) by {
            if h < best {
                assert(heap[h] == hv[h]);
                assert(hv[h].path@ != hv[best].path@);
            } else {
                assert(heap[h] == hv[h + 1]);
                assert(hv[h + 1].path@ != hv[best].path@);
            }
        }
        assert forall|h1: int, h2: int| 0 <= h1 < heap.len() && 0 <= h2 < heap.len() && h1 != h2 implies (
        #[trigger] heap[h1]).path@ != (#[trigger] heap[h2]).path@ by {
            let g1 = if h1 < best { h1 } else { h1 + 1 };
            let g2 = if h2 < best { h2 } else { h2 + 1 };
            assert(heap[h1] == hv[g1]);
            assert(heap[h2] == hv[g2]);
        }
        assert forall|h: int| 0 <= h < heap.len() && (#[trigger] heap[h]).path@.len() >= 2 implies heap[h].path@.drop_last() != cp by {
            let g = if h < best { h } else { h + 1 };
            assert(heap[h] == hv[g]);
            assert(popped.contains(hv[g].path@.drop_last()));
        }
    }
}

proof fn lemma_sets_push(
    l: Lattice,
    reach: spec_fn(int) -> bool,
    heap: Seq<PartialPath>,
    child: PartialPath,
    old_popped: Set<Seq<usize>>,
    cp: Seq<usize>,
    pos: int,
    e: int,
    base: int,
    t: bool,
)
    requires
        l.wf(),
        t ==> l.ordered(),
        0 <= pos <= l.len(),
        0 <= e < l.ending(pos).len(),
        0 <= base <= heap.len(),
        sets_ok(l, reach, heap, old_popped.insert(cp), t),
        reached_chain(l, reach, cp),
        cp.len() >= 1,
        child.path@ == cp.push(l.ending(pos)[e]),
        back_chain(l, child.path@),
        reach(l.ending(pos)[e] as int),
        t ==> !old_popped.contains(cp),
        closed_down(old_popped),
        t ==> forall|h: int| 0 <= h < base && (#[trigger] heap[h]).path@.len() >= 2 ==> heap[h].path@.drop_last() != cp,
        t ==> forall|h: int| 0 <= h < base ==> (#[trigger] heap[h]).path@.len() < 2 || heap[h].path@.drop_last() != cp,
        t ==> forall|h: int| base <= h < heap.len() ==> (#[trigger] heap[h]).path@.drop_last() == cp && heap[h].path@.len()
            == cp.len() + 1 && exists|j: int| 0 <= j < e && l.ending(pos)[j] == heap[h].path@.last(),
    ensures
        sets_ok(l, reach, heap.push(child), old_popped.insert(cp), t),
{
    reveal(sets_ok);
    let np = old_popped.insert(cp);
    let nh = heap.push(child);
    let c = child.path@;
    assert(c.drop_last() =~= cp);
    assert(c.last() == l.ending(pos)[e]);
    assert(reached_chain(l, reach, c)) by {
        assert forall|k: int| 1 <= k < c.len() implies reach(#[trigger] c[k] as int) by {
            if k < c.len() - 1 {
                assert(c[k] == cp[k]);
            }
        }
    }
    assert forall|h: int| 0 <= h < nh.len() implies reached_chain(l, reach, #[trigger] nh[h].path@) by {
        if h < heap.len() {
            assert(nh[h] == heap[h]);
        }
    }
    assert forall|h: int| 0 <= h < nh.len() && (#[trigger] nh[h]).path@.len() >= 2 implies np.contains(nh[h].path@.drop_last()) by {
        if h < heap.len() {
            assert(nh[h] == heap[h]);
        }
    }
    if t {
        assert(!np.contains(c)) by {
            if np.contains(c) {
                assert(c.len() != cp.len());
                assert(old_popped.contains(c));
                assert(old_popped.contains(c.drop_last())) by {
                    reveal(closed_down);
                }
            }
        }
        assert forall|h: int| 0 <= h < nh.len() implies !np.contains(#[trigger] nh[h].path@) by {
            if h < heap.len() {
                assert(nh[h] == heap[h]);
            }
        }
        assert forall|h: int| 0 <= h < heap.len() implies (#[trigger] heap[h]).path@ != c by {
            if h < base {
                if heap[h].path@ == c {
                    assert(heap[h].path@.drop_last() == cp);
                }
            } else {
                let j = choose|j: int| 0 <= j < e && l.ending(pos)[j] == heap[h].path@.last();
                assert(l.ending(pos)[j] < l.ending(pos)[e]);
            }
        }
        assert forall|h1: int, h2: int| 0 <= h1 < nh.len() && 0 <= h2 < nh.len() && h1 != h2 implies (
        #[trigger] nh[h1]).path@ != (#[trigger] nh[h2]).path@ by {
            if h1 < heap.len() && h2 < heap.len() {
                assert(nh[h1] == heap[h1] && nh[h2] == heap[h2]);
            } else if h1 < heap.len() {
                assert(nh[h1] == heap[h1]);
                assert(nh[h2] == child);
            } else {
                assert(nh[h2] == heap[h2]);
                assert(nh[h1] == child);
            }
        }
    }
}

proof fn lemma_sets_count(l: Lattice, reach: spec_fn(int) -> bool, heap: Seq<PartialPath>, popped: Set<Seq<usize>>, t: bool, b: nat)
    requires
        sets_ok(l, reach, heap, popped, t),
        few_chains(l, reach, b),
    ensures
        popped.len() < b,
{
    reveal(sets_ok);
    let s = choose|s: Set<Seq<usize>>| #[trigger] chain_cover(l, reach, s) && s.finite() && s.len() < b;
    assert(popped.subset_of(s));
    vstd::set_lib::lemma_len_subset(popped, s);
}

/// The paths not yet covered while the chain `cp` is being extended: each
/// extends `cp` by a node that is not among the first `e` nodes ending at
/// `pos`.
#[verifier::opaque]
spec fn pending_cov(
    l: Lattice,
    reach: spec_fn(int) -> bool,
    heap: Seq<PartialPath>,
    seen: Seq<Vec<char>>,
    cp: Seq<usize>,
    pos: int,
    e: int,
) -> bool {
    forall|f: Seq<usize>|
        #[trigger] full_reached(l, reach, f) ==> covered(l, heap, seen, f) || (prefix_of(cp, f) && f.len() > cp.len()
            && forall|q: int| 0 <= q < e ==> l.ending(pos)[q] != f[cp.len() as int])
}

proof fn lemma_full_prefix_ends(l: Lattice, reach: spec_fn(int) -> bool, cp: Seq<usize>, f: Seq<usize>)
    requires
        full_reached(l, reach, f),
        prefix_of(cp, f),
        cp.len() >= 1,
        cp.last() == l.bos_index,
    ensures
        f == cp,
{
    lemma_chain_bos_last(l, f, cp.len() as int);
    assert(f =~= f.take(cp.len() as int));
}

proof fn lemma_chain_bos_last(l: Lattice, f: Seq<usize>, k: int)
    requires
        back_chain(l, f),
        1 <= k <= f.len(),
        f[k - 1] == l.bos_index,
    ensures
        f.len() == k,
{
    if f.len() > k {
        assert(1 <= k < f.len());
        assert(f[k] < l.nodes@.len());
        assert(f[k] != l.eos_index && f[k - 1] != l.bos_index && l.node(f[k] as int).end == l.node(f[k - 1] as int).start);
    }
}

proof fn lemma_cov_remove(
    l: Lattice,
    reach: spec_fn(int) -> bool,
    hv: Seq<PartialPath>,
    heap: Seq<PartialPath>,
    seen: Seq<Vec<char>>,
    best: int,
)
    requires
        all_covered(l, reach, hv, seen),
        0 <= best < hv.len(),
        heap == hv.remove(best),
    ensures
        forall|f: Seq<usize>| #[trigger] full_reached(l, reach, f) ==> covered(l, heap, seen, f) || prefix_of(hv[best].path@, f),
{
    reveal(all_covered);
    reveal(covered);
    assert forall|f: Seq<usize>| #[trigger] full_reached(l, reach, f) implies covered(l, heap, seen, f) || prefix_of(hv[best].path@, f) by {
        assert(covered(l, hv, seen, f));
        if exists|h: int| 0 <= h < hv.len() && prefix_of(#[trigger] hv[h].path@, f) {
            let h = choose|h: int| 0 <= h < hv.len() && prefix_of(#[trigger] hv[h].path@, f);
            if h < best {
                assert(heap[h] == hv[h]);
                assert(prefix_of(heap[h].path@, f));
            } else if h > best {
                assert(heap[h - 1] == hv[h]);
                assert(prefix_of(heap[h - 1].path@, f));
            }
        }
    }
}

proof fn lemma_cov_complete(
    l: Lattice,
    reach: spec_fn(int) -> bool,
    heap: Seq<PartialPath>,
    seen: Seq<Vec<char>>,
    seen2: Seq<Vec<char>>,
    cp: Seq<usize>,
)
    requires
        forall|f: Seq<usize>| #[trigger] full_reached(l, reach, f) ==> covered(l, heap, seen, f) || prefix_of(cp, f),
        cp.len() >= 1,
        cp.last() == l.bos_index,
        seen.len() <= seen2.len(),
        forall|i: int| 0 <= i < seen.len() ==> seen2[i] == seen[i],
        exists|i: int| 0 <= i < seen2.len() && (#[trigger] seen2[i])@ == chain_surface(l, cp),
    ensures
        all_covered(l, reach, heap, seen2),
{
    reveal(all_covered);
    reveal(covered);
    assert forall|f: Seq<usize>| #[trigger] full_reached(l, reach, f) implies covered(l, heap, seen2, f) by {
        if prefix_of(cp, f) {
            lemma_full_prefix_ends(l, reach, cp, f);
        } else if exists|i: int| 0 <= i < seen.len() && (#[trigger] seen[i])@ == chain_surface(l, f) {
            let i = choose|i: int| 0 <= i < seen.len() && (#[trigger] seen[i])@ == chain_surface(l, f);
            assert(seen2[i] == seen[i]);
        }
    }
}

proof fn lemma_cov_expand_start(
    l: Lattice,
    reach: spec_fn(int) -> bool,
    heap: Seq<PartialPath>,
    seen: Seq<Vec<char>>,
    cp: Seq<usize>,
    pos: int,
)
    requires
        forall|f: Seq<usize>| #[trigger] full_reached(l, reach, f) ==> covered(l, heap, seen, f) || prefix_of(cp, f),
        cp.len() >= 1,
        cp.last() != l.bos_index,
    ensures
        pending_cov(l, reach, heap, seen, cp, pos, 0),
{
    reveal(pending_cov);
    assert forall|f: Seq<usize>| #[trigger] full_reached(l, reach, f) implies covered(l, heap, seen, f) || (prefix_of(cp, f)
        && f.len() > cp.len() && forall|q: int| 0 <= q < 0 ==> l.ending(pos)[q] != f[cp.len() as int]) by {
        if prefix_of(cp, f) && f.len() == cp.len() {
            assert(f =~= f.take(cp.len() as int));
        }
    }
}

proof fn lemma_cov_push(
    l: Lattice,
    reach: spec_fn(int) -> bool,
    heap: Seq<PartialPath>,
    seen: Seq<Vec<char>>,
    cp: Seq<usize>,
    pos: int,
    e: int,
    child: PartialPath,
)
    requires
        pending_cov(l, reach, heap, seen, cp, pos, e),
        0 <= e,
        child.path@ == cp.push(l.ending(pos)[e]),
    ensures
        pending_cov(l, reach, heap.push(child), seen, cp, pos, e + 1),
{
    reveal(pending_cov);
    reveal(covered);
    let nh = heap.push(child);
    assert forall|f: Seq<usize>| #[trigger] full_reached(l, reach, f) implies covered(l, nh, seen, f) || (prefix_of(cp, f)
        && f.len() > cp.len() && forall|q: int| 0 <= q < e + 1 ==> l.ending(pos)[q] != f[cp.len() as int]) by {
        if exists|h: int| 0 <= h < heap.len() && prefix_of(#[trigger] heap[h].path@, f) {
            let h = choose|h: int| 0 <= h < heap.len() && prefix_of(#[trigger] heap[h].path@, f);
            assert(nh[h] == heap[h]);
            assert(prefix_of(nh[h].path@, f));
        } else if prefix_of(cp, f) && f.len() > cp.len() && f[cp.len() as int] == l.ending(pos)[e] {
            assert(f.take(cp.len() as int + 1) =~= cp.push(l.ending(pos)[e]));
            assert(nh[heap.len() as int] == child);
            assert(prefix_of(nh[heap.len() as int].path@, f));
        }
    }
}

proof fn lemma_cov_skip(
    l: Lattice,
    reach: spec_fn(int) -> bool,
    heap: Seq<PartialPath>,
    seen: Seq<Vec<char>>,
    cp: Seq<usize>,
    pos: int,
    e: int,
)
    requires
        pending_cov(l, reach, heap, seen, cp, pos, e),
        0 <= e,
        cp.len() >= 1,
        !reach(l.ending(pos)[e] as int),
    ensures
        pending_cov(l, reach, heap, seen, cp, pos, e + 1),
{
    reveal(pending_cov);
    assert forall|f: Seq<usize>| #[trigger] full_reached(l, reach, f) implies covered(l, heap, seen, f) || (prefix_of(cp, f)
        && f.len() > cp.len() && forall|q: int| 0 <= q < e + 1 ==> l.ending(pos)[q] != f[cp.len() as int]) by {
        if !covered(l, heap, seen, f) {
            let k = cp.len() as int;
            assert(1 <= k < f.len());
            assert(reach(f[k] as int));
        }
    }
}

proof fn lemma_cov_done(
    l: Lattice,
    reach: spec_fn(int) -> bool,
    heap: Seq<PartialPath>,
    seen: Seq<Vec<char>>,
    cp: Seq<usize>,
    pos: int,
)
    requires
        l.wf(),
        pending_cov(l, reach, heap, seen, cp, pos, l.ending(pos).len() as int),
        cp.len() >= 1,
        cp.last() < l.nodes@.len(),
        pos == l.node(cp.last() as int).start,
    ensures
        all_covered(l, reach, heap, seen),
{
    reveal(pending_cov);
    reveal(all_covered);
    assert forall|f: Seq<usize>| #[trigger] full_reached(l, reach, f) implies covered(l, heap, seen, f) by {
        if !covered(l, heap, seen, f) {
            let k = cp.len() as int;
            let x = f[k];
            assert(f.take(k)[k - 1] == f[k - 1]);
            assert(f[k - 1] == cp.last());
            assert(back_chain(l, f));
            assert(x < l.nodes@.len() && x != l.eos_index && l.node(x as int).end == l.node(f[k - 1] as int).start);
            assert(l.node(x as int).end == pos);
            assert(l.ending(l.node(x as int).end as int).contains((x as int) as usize));
            let q = choose|q: int| 0 <= q < l.ending(pos).len() && l.ending(pos)[q] == x;
            assert(l.ending(pos)[q] != f[k]);
        }
    }
}

proof fn lemma_cov_final(l: Lattice, reach: spec_fn(int) -> bool, seen: Seq<Vec<char>>, rs: Seq<Vec<WordEntry>>)
    requires
        l.wf(),
        all_covered(l, reach, Seq::<PartialPath>::empty(), seen),
        seen.len() == rs.len(),
        forall|i: int| 0 <= i < rs.len() ==> (#[trigger] seen[i])@ == join_surfaces(entries_view(rs[i]@)),
    ensures
        surfaces_complete(l, reach, rs),
{
    reveal(all_covered);
    reveal(covered);
    assert forall|p: Seq<int>|
        is_path(l, p) && p.last() == l.eos_index && (forall|k: int| 0 <= k < p.len() - 1 ==> reach(#[trigger] p[k]))
        implies exists|i: int| 0 <= i < rs.len() && join_surfaces(entries_view(#[trigger] rs[i]@)) == join_surfaces(
        chain_words(l, p)) by {
        lemma_path_backwards(l, reach, p);
        let f = backwards(p);
        assert(covered(l, Seq::<PartialPath>::empty(), seen, f));
        let i = choose|i: int| 0 <= i < seen.len() && (#[trigger] seen[i])@ == chain_surface(l, f);
        assert(seen[i]@ == join_surfaces(entries_view(rs[i]@)));
    }
}

/// Every path through reached nodes has its surface among `rs`.
pub open spec fn strings_complete(l: Lattice, reach: spec_fn(int) -> bool, rs: Seq<String>) -> bool {
    forall|p: Seq<int>|
        is_path(l, p) && p.last() == l.eos_index && (forall|k: int| 0 <= k < p.len() - 1 ==> reach(#[trigger] p[k]))
            ==> exists|i: int| 0 <= i < rs.len() && (#[trigger] rs[i])@ == join_surfaces(chain_words(l, p))
}

proof fn lemma_complete_same(
    m: ConnectionMatrix,
    big: Map<PairKey, i32>,
    a: Lattice,
    b: Lattice,
    ra: spec_fn(int) -> bool,
    rb: spec_fn(int) -> bool,
    rs: Seq<Vec<WordEntry>>,
    budget: nat,
)
    requires
        same_graph(a, b),
        forall|i: int| 0 <= i < a.nodes@.len() ==> #[trigger] ra(i) == rb(i),
    ensures
        few_chains(b, rb, budget) ==> few_chains(a, ra, budget),
        surfaces_complete(a, ra, rs) ==> surfaces_complete(b, rb, rs),
{
    assert(same_graph(b, a)) by {
        assert forall|i: int| 0 <= i < b.nodes@.len() implies #[trigger] shape(b.node(i)) == shape(a.node(i)) by {
            assert(shape(a.node(i)) == shape(b.node(i)));
        }
    }
    assert forall|p: Seq<usize>| reached_chain(a, ra, p) implies reached_chain(b, rb, p) by {
        assert forall|k: int| 1 <= k < p.len() implies #[trigger] p[k] != b.eos_index && p[k - 1] != b.bos_index
            && b.node(p[k] as int).end == b.node(p[k - 1] as int).start by {
            assert(p[k] < a.nodes@.len() && p[k - 1] < a.nodes@.len());
            assert(shape(a.node(p[k] as int)) == shape(b.node(p[k] as int)));
            assert(shape(a.node(p[k - 1] as int)) == shape(b.node(p[k - 1] as int)));
        }
        assert forall|k: int| 1 <= k < p.len() implies rb(#[trigger] p[k] as int) by {
            assert(p[k] < a.nodes@.len());
            assert(ra(p[k] as int));
        }
    }
    if few_chains(b, rb, budget) {
        let s = choose|s: Set<Seq<usize>>| #[trigger] chain_cover(b, rb, s) && s.finite() && s.len() < budget;
        assert(chain_cover(a, ra, s));
    }
    if surfaces_complete(a, ra, rs) {
        assert forall|p: Seq<int>|
            is_path(b, p) && p.last() == b.eos_index && (forall|k: int| 0 <= k < p.len() - 1 ==> rb(#[trigger] p[k]))
            implies exists|i: int| 0 <= i < rs.len() && join_surfaces(entries_view(#[trigger] rs[i]@)) == join_surfaces(
            chain_words(b, p)) by {
            lemma_path_same(m, big, b, a, p);
            assert forall|k: int| 0 <= k < p.len() - 1 implies ra(#[trigger] p[k]) by {
                assert(rb(p[k]));
            }
        }
    }
}

proof fn lemma_forward_path(l: Lattice, p: Seq<usize>)
    requires
        l.wf(),
        back_chain(l, p),
        p.last() == l.bos_index,
    ensures
        is_path(l, forward(p)),
        forward(p).last() == l.eos_index,
{
    let f = forward(p);
    let n = p.len();
    assert forall|k: int| 0 <= k < n implies #[trigger] f[k] == p[n - 1 - k] as int by {}
    assert(f[0] == l.bos_index);
    assert(f[n - 1] == l.eos_index);
    assert forall|k: int| 0 <= k < f.len() implies 0 <= #[trigger] f[k] < l.nodes@.len() by {
        assert(f[k] == p[n - 1 - k] as int);
    }
    assert forall|k: int| 1 <= k < f.len() implies #[trigger] f[k] != l.bos_index && f[k - 1] != l.eos_index && l.node(f[k - 1]).end == l.node(f[k]).start by {
        assert(f[k] == p[n - 1 - k] as int);
        assert(f[k - 1] == p[n - k] as int);
        let q = n - k;
        assert(1 <= q < n);
        assert(p[q] != l.eos_index && p[q - 1] != l.bos_index && l.node(p[q] as int).end == l.node(p[q - 1] as int).start);
    }
}

fn copy_path(v: &Vec<usize>) -> (r: Vec<usize>)
    ensures
        r@ == v@,
{
    let mut r: Vec<usize> = Vec::new();
    let mut i: usize = 0;
    while i < v.len()
        invariant
            i <= v@.len(),
            r@ == v@.take(i as int),
        decreases v@.len() - i,
    {
        r.push(v[i]);
        assert(v@.take(i + 1) =~= v@.take(i as int).push(v@[i as int]));
        i += 1;
    }
    assert(v@.take(v@.len() as int) =~= v@);
    r
}

/// The words of the forward path of `p`.
fn words_of_back_chain(lattice: &Lattice, p: &Vec<usize>) -> (r: Vec<WordEntry>)
    requires
        forall|k: int| 0 <= k < p@.len() ==> #[trigger] p@[k] < lattice.nodes@.len(),
    ensures
        entries_view(r@) == chain_words(*lattice, forward(p@)),
{
    let ghost f = forward(p@);
    let n = p.len();
    let mut r: Vec<WordEntry> = Vec::new();
    let mut k: usize = n;
    assert(f.take(0) =~= Seq::<int>::empty());
    while k > 0
        invariant
            k <= n,
            n == p@.len(),
            f == forward(p@),
            forall|j: int| 0 <= j < p@.len() ==> #[trigger] p@[j] < lattice.nodes@.len(),
            entries_view(r@) == chain_words(*lattice, f.take(n - k)),
        decreases k,
    {
        k -= 1;
        let idx = p[k];
        proof {
            let t = n - k;
            assert(f.take(t).drop_last() =~= f.take(t - 1));
            assert(f.take(t).last() == f[t - 1]);
            assert(f[t - 1] == p@[k as int] as int);
        }
        match &lattice.nodes[idx].entry {
            Some(e) => {
                let ghost before = entries_view(r@);
                r.push(e.clone());
                assert(entries_view(r@) =~= before.push(e@));
            },
            None => {},
        }
    }
    assert(f.take(n as int) =~= f);
    r
}

/// Whether `s` is among `seen`.
fn seen_contains(seen: &Vec<Vec<char>>, s: &Vec<char>) -> (r: bool)
    ensures
        r == exists|k: int| 0 <= k < seen@.len() && (#[trigger] seen@[k])@ == s@,
{
    let mut k: usize = 0;
    while k < seen.len()
        invariant
            k <= seen@.len(),
            forall|j: int| 0 <= j < k ==> (#[trigger] seen@[j])@ != s@,
        decreases seen@.len() - k,
    {
        if chars_eq(seen[k].as_slice(), s.as_slice()) {
            return true;
        }
        k += 1;
    }
    false
}

/// `ps` are full paths of `l`, one for each of `rs`, that give its words,
/// with plain costs that never decrease.
pub open spec fn paths_in_cost_order(m: ConnectionMatrix, l: Lattice, rs: Seq<Vec<WordEntry>>, ps: Seq<Seq<int>>) -> bool {
    &&& ps.len() == rs.len()
    &&& forall|i: int|
        0 <= i < ps.len() ==> is_path(l, #[trigger] ps[i]) && ps[i].last() == l.eos_index && chain_words(l, ps[i])
            == entries_view(rs[i]@)
    &&& forall|i: int, j: int| 0 <= i < j < ps.len() ==> plain_cost(m, l, #[trigger] ps[i]) <= plain_cost(m, l, #[trigger] ps[j])
}

/// `ps` are full paths of `l`, one for each of `rs`, whose surfaces it is,
/// with plain costs that never decrease.
pub open spec fn strings_in_cost_order(m: ConnectionMatrix, l: Lattice, rs: Seq<String>, ps: Seq<Seq<int>>) -> bool {
    &&& ps.len() == rs.len()
    &&& forall|i: int|
        0 <= i < ps.len() ==> is_path(l, #[trigger] ps[i]) && ps[i].last() == l.eos_index && rs[i]@ == join_surfaces(
            chain_words(l, ps[i]),
        )
    &&& forall|i: int, j: int| 0 <= i < j < ps.len() ==> plain_cost(m, l, #[trigger] ps[i]) <= plain_cost(m, l, #[trigger] ps[j])
}

/// The number of steps the search may take for `n` results: a thousand
/// per result (at most the largest `usize`), and never fewer than ten
/// thousand.
pub open spec fn search_budget(n: nat) -> nat {
    let m = if n > usize::MAX / 1000 {
        usize::MAX as nat
    } else {
        n * 1000
    };
    if m < 10000 {
        10000
    } else {
        m
    }
}

/// What the search keeps of each partial path on its list: a backward
/// chain from the end node, its plain cost, and the estimate made of that
/// cost and the best cost of its head node.
#[verifier::opaque]
spec fn entry_ok(l: Lattice, m: ConnectionMatrix, good: bool, big_f: int, pp: PartialPath) -> bool {
    &&& back_chain(l, pp.path@)
    &&& pp.head_node == pp.path@.last()
    &&& -0x2_0000_0000 * pp.path@.len() <= pp.cost <= 0x2_0000_0000 * pp.path@.len()
    &&& pp.f_cost == pp.cost + l.node(pp.head_node as int).total_cost
    &&& pp.cost == back_cost(m, l, pp.path@)
    &&& (pp.path@.len() >= 2 ==> l.node(pp.head_node as int).total_cost != i32_max())
    &&& (good ==> pp.f_cost >= big_f)
}

/// Conditions under which the search finds a first result: one is asked
/// for, the end node is reached, the costs the lattice carries solve the
/// plain search equations, and the search budget exceeds the input's
/// length in bytes plus one (the search then reaches a first result within
/// its budget).
pub open spec fn search_finds_first(l: Lattice, m: ConnectionMatrix, n: nat) -> bool {
    &&& n > 0
    &&& l.node(l.eos_index as int).total_cost != i32_max()
    &&& plain_solved(m, l)
    &&& l.len() + 1 < search_budget(n)
}

proof fn lemma_child_entry(
    l: Lattice,
    m: ConnectionMatrix,
    good: bool,
    big_f: int,
    parent: PartialPath,
    child: PartialPath,
    e: int,
)
    requires
        l.wf(),
        entry_ok(l, m, good, big_f, parent),
        parent.head_node != l.bos_index,
        0 <= e < l.ending(l.node(parent.head_node as int).start as int).len(),
        child.head_node == l.ending(l.node(parent.head_node as int).start as int)[e],
        child.path@ == parent.path@.push(child.head_node),
        l.node(child.head_node as int).total_cost != i32_max(),
        child.cost == parent.cost + plain_step(m, l.node(child.head_node as int), l.node(parent.head_node as int)),
        child.f_cost == child.cost + l.node(child.head_node as int).total_cost,
        good ==> plain_solved(m, l),
    ensures
        entry_ok(l, m, good, big_f, child),
        head_rank(l, child.head_node as int) < head_rank(l, parent.head_node as int),
        plain_solved(m, l) ==> child.f_cost >= parent.f_cost,
        back_chain(l, child.path@),
{
    reveal(entry_ok);
    let head = parent.head_node as int;
    let prev = child.head_node;
    let pos = l.node(head).start as int;
    assert(0 <= head < l.nodes@.len());
    assert(l.node(head).start <= l.node(head).end);
    assert(prev < l.nodes@.len() && l.node(prev as int).end == pos && prev != l.eos_index);
    if prev != l.bos_index {
        assert(l.node(prev as int).start < l.node(prev as int).end);
    }
    let p = child.path@;
    let pp = parent.path@;
    assert(p.drop_last() =~= pp);
    assert forall|k: int| 0 <= k < p.len() implies #[trigger] p[k] < l.nodes@.len() by {
        if k < p.len() - 1 {
            assert(p[k] == pp[k]);
        }
    }
    assert forall|k: int| 1 <= k < p.len() implies #[trigger] p[k] != l.eos_index && p[k - 1] != l.bos_index
        && l.node(p[k] as int).end == l.node(p[k - 1] as int).start by {
        if k < p.len() - 1 {
            assert(p[k] == pp[k]);
            assert(p[k - 1] == pp[k - 1]);
        } else {
            assert(p[k - 1] == pp.last());
        }
    }
    assert(p[p.len() - 2] == parent.head_node);
    assert(back_cost(m, l, p) == back_cost(m, l, pp) + plain_step(m, l.node(prev as int), l.node(head)));
    if good || plain_solved(m, l) {
        assert(l.node(head).total_cost <= l.node(prev as int).total_cost + plain_step(m, l.node(prev as int), l.node(head)));
    }
}

/// Index of the last entry with the lowest estimate.
fn select_last_min(heap: &Vec<PartialPath>) -> (best: usize)
    requires
        heap@.len() > 0,
    ensures
        best < heap@.len(),
        forall|k: int| 0 <= k < heap@.len() ==> heap@[best as int].f_cost <= #[trigger] heap@[k].f_cost,
        forall|k: int| best < k < heap@.len() ==> heap@[best as int].f_cost < #[trigger] heap@[k].f_cost,
{
    let mut best: usize = 0;
    let mut q: usize = 1;
    while q < heap.len()
        invariant
            1 <= q <= heap@.len(),
            best < q,
            forall|k: int| 0 <= k < q ==> heap@[best as int].f_cost <= #[trigger] heap@[k].f_cost,
            forall|k: int| best < k < q ==> heap@[best as int].f_cost < #[trigger] heap@[k].f_cost,
        decreases heap@.len() - q,
    {
        if heap[q].f_cost <= heap[best].f_cost {
            best = q;
        }
        q += 1;
    }
    best
}

proof fn lemma_pick_is_last_tight(
    l: Lattice,
    m: ConnectionMatrix,
    good: bool,
    big_f: int,
    hv: Seq<PartialPath>,
    best: int,
    lt: int,
)
    requires
        good,
        0 <= best < hv.len(),
        forall|k: int| 0 <= k < hv.len() ==> hv[best].f_cost <= #[trigger] hv[k].f_cost,
        forall|k: int| best < k < hv.len() ==> hv[best].f_cost < #[trigger] hv[k].f_cost,
        forall|h: int| 0 <= h < hv.len() ==> entry_ok(l, m, good, big_f, #[trigger] hv[h]),
        0 <= lt < hv.len(),
        hv[lt].f_cost == big_f,
        forall|k: int| lt < k < hv.len() ==> #[trigger] hv[k].f_cost != big_f,
    ensures
        best == lt,
{
    assert(hv[best].f_cost >= big_f) by {
        assert(entry_ok(l, m, good, big_f, hv[best]));
        reveal(entry_ok);
    }
    assert(hv[best].f_cost <= hv[lt].f_cost);
    if best < lt {
        assert(hv[best].f_cost < hv[lt].f_cost);
    }
    if best > lt {
        assert(hv[best].f_cost != big_f);
    }
}

proof fn lemma_after_remove(
    l: Lattice,
    m: ConnectionMatrix,
    good: bool,
    big_f: int,
    hv: Seq<PartialPath>,
    heap: Seq<PartialPath>,
    best: int,
    tight: bool,
    lt: int,
)
    requires
        0 <= best < hv.len(),
        heap == hv.remove(best),
        forall|h: int| 0 <= h < hv.len() ==> entry_ok(l, m, good, big_f, #[trigger] hv[h]),
        tight ==> best == lt && forall|k: int| lt < k < hv.len() ==> #[trigger] hv[k].f_cost != big_f,
        tight ==> hv[lt].f_cost == big_f,
        tight ==> good,
        forall|k: int| 0 <= k < hv.len() ==> hv[best].f_cost <= #[trigger] hv[k].f_cost,
    ensures
        forall|h: int| 0 <= h < heap.len() ==> entry_ok(l, m, good, big_f, #[trigger] heap[h]),
        forall|h: int| 0 <= h < heap.len() ==> hv[best].f_cost <= #[trigger] heap[h].f_cost,
        tight ==> forall|k: int| best <= k < heap.len() ==> #[trigger] heap[k].f_cost != big_f,
        entry_ok(l, m, good, big_f, hv[best]),
        ({
            let c = hv[best];
            &&& back_chain(l, c.path@)
            &&& c.head_node == c.path@.last()
            &&& -0x2_0000_0000 * c.path@.len() <= c.cost <= 0x2_0000_0000 * c.path@.len()
            &&& c.f_cost == c.cost + l.node(c.head_node as int).total_cost
            &&& c.cost == back_cost(m, l, c.path@)
            &&& (c.path@.len() >= 2 ==> l.node(c.head_node as int).total_cost != i32_max())
            &&& (good ==> c.f_cost >= big_f)
            &&& (tight ==> c.f_cost == big_f)
        }),
{
    assert(entry_ok(l, m, good, big_f, hv[best]));
    assert forall|h: int| 0 <= h < heap.len() implies entry_ok(l, m, good, big_f, #[trigger] heap[h]) && hv[best].f_cost
        <= heap[h].f_cost by {
        if h < best {
            assert(heap[h] == hv[h]);
        } else {
            assert(heap[h] == hv[h + 1]);
        }
    }
    if tight {
        assert forall|k: int| best <= k < heap.len() implies #[trigger] heap[k].f_cost != big_f by {
            assert(heap[k] == hv[k + 1]);
        }
    }
    reveal(entry_ok);
}

/// Up to `n` conversions of a solved lattice with distinct surfaces, each
/// the words of a path from the begin node to the end node. When the costs
/// of the lattice solve the plain search equations they come cheapest
/// first; where the search is sure to find one, the first is a path whose
/// plain cost is the best cost of the end node. When the lists of nodes
/// ending at each offset are increasing and the lattice has fewer partial
/// paths through reached nodes than the search budget, fewer than `n`
/// results means that every surface of a path through reached nodes is
/// among them.
pub fn n_best_from_lattice(lattice: &Lattice, dict: &Dictionary, n: usize) -> (r: Vec<Vec<WordEntry>>)
    requires
        lattice.wf(),
    ensures
        r@.len() <= n,
        forall|i: int| 0 <= i < r@.len() ==> words_of_full_path(*lattice, entries_view(#[trigger] r@[i]@)),
        distinct_surfaces(r@),
        search_finds_first(*lattice, dict.matrix, n as nat) ==> r@.len() >= 1 && exists|p: Seq<int>|
            is_path(*lattice, p) && p.last() == lattice.eos_index && #[trigger] chain_words(*lattice, p) == entries_view(
                r@[0]@,
            ) && plain_cost(dict.matrix, *lattice, p) == lattice.node(lattice.eos_index as int).total_cost,
        plain_solved(dict.matrix, *lattice) ==> exists|ps: Seq<Seq<int>>| #[trigger] paths_in_cost_order(dict.matrix, *lattice, r@, ps),
        lattice.ordered() && few_chains(*lattice, |i: int| lattice.node(i).total_cost != i32_max(), search_budget(n as nat))
            && r@.len() < n ==> surfaces_complete(*lattice, |i: int| lattice.node(i).total_cost != i32_max(), r@),
{
    let eos = lattice.eos_index;
    let bos = lattice.bos_index;
    let ghost m = dict.matrix;
    let ghost good = search_finds_first(*lattice, m, n as nat);
    let ghost big_f: int = lattice.node(eos as int).total_cost as int;
    let mut heap: Vec<PartialPath> = Vec::new();
    let mut start_path: Vec<usize> = Vec::new();
    start_path.push(eos);
    heap.push(PartialPath { f_cost: lattice.nodes[eos].total_cost as i128, cost: 0, head_node: eos, path: start_path });
    let mut results: Vec<Vec<WordEntry>> = Vec::new();
    let mut seen: Vec<Vec<char>> = Vec::new();
    let max_iterations: usize = {
        let m = if n > usize::MAX / 1000 {
            usize::MAX
        } else {
            n * 1000
        };
        if m < 10000 {
            10000
        } else {
            m
        }
    };
    let mut iterations: usize = 0;
    let ghost mut lt: int = 0;
    let ghost mut first: Seq<int> = Seq::empty();
    let ghost ps_ok = plain_solved(m, *lattice);
    let ghost mut last_f: int = big_f;
    let ghost mut paths: Seq<Seq<int>> = Seq::empty();
    let ghost t = lattice.ordered();
    let ghost reach = |i: int| lattice.node(i).total_cost != i32_max();
    let ghost few = few_chains(*lattice, reach, search_budget(n as nat));
    let ghost mut popped: Set<Seq<usize>> = Set::empty();
    proof {
        assert(heap@[0].path@ =~= seq![eos]);
        lemma_sets_init(*lattice, reach, heap@, t);
        assert(all_covered(*lattice, reach, heap@, seen@)) by {
            reveal(all_covered);
            reveal(covered);
            assert forall|f: Seq<usize>| #[trigger] full_reached(*lattice, reach, f) implies covered(*lattice, heap@, seen@, f) by {
                assert(f.take(1) =~= heap@[0].path@);
                assert(prefix_of(heap@[0].path@, f));
            }
        }
        assert(entry_ok(*lattice, m, good, big_f, heap@[0])) by {
            reveal(entry_ok);
        }
        assert(lattice.node(eos as int).start == lattice.len());
    }
    while heap.len() > 0
        invariant
            lattice.wf(),
            eos == lattice.eos_index,
            bos == lattice.bos_index,
            m == dict.matrix,
            max_iterations == search_budget(n as nat),
            good == search_finds_first(*lattice, m, n as nat),
            big_f == lattice.node(eos as int).total_cost as int,
            forall|h: int| 0 <= h < heap@.len() ==> entry_ok(*lattice, m, good, big_f, #[trigger] heap@[h]),
            results@.len() == seen@.len(),
            results@.len() <= n,
            forall|i: int| 0 <= i < results@.len() ==> (#[trigger] seen@[i])@ == join_surfaces(entries_view(results@[i]@)),
            forall|i: int| 0 <= i < results@.len() ==> words_of_full_path(*lattice, entries_view(#[trigger] results@[i]@)),
            distinct_surfaces(results@),
            good && results@.len() == 0 ==> {
                &&& 0 <= lt < heap@.len()
                &&& heap@[lt].f_cost == big_f
                &&& forall|k: int| lt < k < heap@.len() ==> #[trigger] heap@[k].f_cost != big_f
                &&& iterations + head_rank(*lattice, heap@[lt].head_node as int) <= lattice.len() + 1
            },
            good && results@.len() >= 1 ==> {
                &&& is_path(*lattice, first)
                &&& first.last() == lattice.eos_index
                &&& chain_words(*lattice, first) == entries_view(results@[0]@)
                &&& plain_cost(m, *lattice, first) == big_f
            },
            ps_ok == plain_solved(m, *lattice),
            forall|h: int| 0 <= h < heap@.len() ==> (ps_ok ==> #[trigger] heap@[h].f_cost >= last_f),
            ps_ok ==> paths_in_cost_order(m, *lattice, results@, paths),
            ps_ok ==> forall|i: int| 0 <= i < paths.len() ==> plain_cost(m, *lattice, #[trigger] paths[i]) <= last_f,
            t == lattice.ordered(),
            reach == (|i: int| lattice.node(i).total_cost != i32_max()),
            few == few_chains(*lattice, reach, search_budget(n as nat)),
            sets_ok(*lattice, reach, heap@, popped, t),
            t ==> popped.len() == iterations,
            all_covered(*lattice, reach, heap@, seen@),
        ensures
            results@.len() <= n,
            forall|i: int| 0 <= i < results@.len() ==> words_of_full_path(*lattice, entries_view(#[trigger] results@[i]@)),
            distinct_surfaces(results@),
            good ==> {
                &&& results@.len() >= 1
                &&& is_path(*lattice, first)
                &&& first.last() == lattice.eos_index
                &&& chain_words(*lattice, first) == entries_view(results@[0]@)
                &&& plain_cost(m, *lattice, first) == big_f
            },
            ps_ok ==> paths_in_cost_order(m, *lattice, results@, paths),
            t && few && results@.len() < n ==> heap@.len() == 0 && all_covered(*lattice, reach, heap@, seen@),
            results@.len() == seen@.len(),
            forall|i: int| 0 <= i < results@.len() ==> (#[trigger] seen@[i])@ == join_surfaces(entries_view(results@[i]@)),
        decreases max_iterations - iterations,
    {
        if iterations >= max_iterations {
            proof {
                if t && few {
                    lemma_sets_count(*lattice, reach, heap@, popped, t, search_budget(n as nat));
                }
                if good && results@.len() == 0 {
                    assert(head_rank(*lattice, heap@[lt].head_node as int) >= 0);
                }
            }
            break;
        }
        if results.len() >= n {
            break;
        }
        let ghost it_top = iterations as int;
        iterations += 1;
        // take out the partial path with the lowest estimate (the last of them)
        let best = select_last_min(&heap);
        let ghost hv = heap@;
        let ghost tight = good && results@.len() == 0;
        proof {
            if tight {
                lemma_pick_is_last_tight(*lattice, m, good, big_f, hv, best as int, lt);
            }
        }
        let current = heap.remove(best);
        let ghost old_popped = popped;
        proof {
            lemma_after_remove(*lattice, m, good, big_f, hv, heap@, best as int, tight, lt);
            assert(current == hv[best as int]);
            lemma_sets_pop(*lattice, reach, hv, heap@, best as int, popped, t);
            lemma_cov_remove(*lattice, reach, hv, heap@, seen@, best as int);
            popped = popped.insert(current.path@);
            if ps_ok {
                assert(current.f_cost >= last_f);
            }
            last_f = current.f_cost as int;
        }
        if current.head_node == bos {
            proof {
                lemma_forward_path(*lattice, current.path@);
            }
            let entries = words_of_back_chain(lattice, &current.path);
            let surface = concat_surfaces(&entries);
            let sc = chars_of(surface.as_str());
            let ghost seen_before = seen@;
            proof {
                assert(sc@ == chain_surface(*lattice, current.path@));
            }
            if !seen_contains(&seen, &sc) {
                proof {
                    assert(words_of_full_path(*lattice, entries_view(entries@)));
                }
                let ghost old_results = results@;
                let ghost old_seen = seen@;
                results.push(entries);
                seen.push(sc);
                proof {
                    assert forall|i: int| 0 <= i < results@.len() implies (#[trigger] seen@[i])@ == join_surfaces(entries_view(results@[i]@)) by {
                        if i < old_results.len() {
                            assert(seen@[i] == old_seen[i]);
                            assert(results@[i] == old_results[i]);
                        }
                    }
                    assert forall|i: int| 0 <= i < results@.len() implies words_of_full_path(*lattice, entries_view(#[trigger] results@[i]@)) by {
                        if i < old_results.len() {
                            assert(results@[i] == old_results[i]);
                        }
                    }
                    assert forall|i: int, j: int| 0 <= i < j < results@.len() implies join_surfaces(entries_view(#[trigger] results@[i]@)) != join_surfaces(entries_view(#[trigger] results@[j]@)) by {
                        assert(results@[i] == old_results[i]);
                        if j < old_results.len() {
                            assert(results@[j] == old_results[j]);
                        } else {
                            assert(old_seen[i]@ == join_surfaces(entries_view(old_results[i]@)));
                        }
                    }
                    if ps_ok {
                        lemma_forward_cost(m, *lattice, current.path@);
                        let np = forward(current.path@);
                        let old_paths = paths;
                        paths = paths.push(np);
                        assert(plain_cost(m, *lattice, np) == last_f);
                        assert forall|i: int| 0 <= i < paths.len() implies is_path(*lattice, #[trigger] paths[i])
                            && paths[i].last() == lattice.eos_index && chain_words(*lattice, paths[i]) == entries_view(results@[i]@) by {
                            if i < old_paths.len() {
                                assert(paths[i] == old_paths[i]);
                                assert(results@[i] == old_results[i]);
                            }
                        }
                        assert forall|i: int, j: int| 0 <= i < j < paths.len() implies plain_cost(m, *lattice, #[trigger] paths[i])
                            <= plain_cost(m, *lattice, #[trigger] paths[j]) by {
                            assert(paths[i] == old_paths[i]);
                            if j < old_paths.len() {
                                assert(paths[j] == old_paths[j]);
                            }
                        }
                        assert forall|i: int| 0 <= i < paths.len() implies plain_cost(m, *lattice, #[trigger] paths[i]) <= last_f by {
                            if i < old_paths.len() {
                                assert(paths[i] == old_paths[i]);
                            }
                        }
                    }
                    if tight {
                        first = forward(current.path@);
                        lemma_forward_cost(m, *lattice, current.path@);
                        assert(results@[0] == entries);
                        assert(lattice.node(bos as int).total_cost == 0);
                    } else if good {
                        assert(results@[0] == old_results[0]);
                    }
                }
                proof {
                    assert(seen@[seen@.len() - 1]@ == chain_surface(*lattice, current.path@));
                }
            } else {
                proof {
                    if tight {
                        assert(seen@.len() == 0);
                    }
                }
            }
            proof {
                lemma_cov_complete(*lattice, reach, heap@, seen_before, seen@, current.path@);
            }
            continue;
        }
        // expand the predecessors of the head node
        let head_idx = current.head_node;
        let pos = lattice.nodes[head_idx].start;
        let head_word_cost = lattice.nodes[head_idx].word_cost as i128;
        let head_left_id = lattice.nodes[head_idx].left_id;
        proof {
            assert(lattice.node(head_idx as int).start <= lattice.node(head_idx as int).end);
            if current.path@.len() < 2 {
                assert(head_idx == eos);
            }
        }
        let ghost base: int = heap@.len() as int;
        let ghost mut lt2: int = -1;
        let ghost qs: int = choose|q: int|
            0 <= q < lattice.ending(pos as int).len() && lattice.node(
                #[trigger] lattice.ending(pos as int)[q] as int,
            ).total_cost != i32_max() && lattice.node(head_idx as int).total_cost == lattice.node(
                lattice.ending(pos as int)[q] as int,
            ).total_cost + plain_step(m, lattice.node(lattice.ending(pos as int)[q] as int), lattice.node(head_idx as int));
        proof {
            if tight {
                assert(lattice.node(head_idx as int).total_cost != i32_max());
                assert(plain_solved(m, *lattice));
                assert(0 <= qs < lattice.ending(pos as int).len());
                assert(current.f_cost == big_f);
                assert(iterations - 1 + head_rank(*lattice, head_idx as int) <= lattice.len() + 1);
            }
        }
        proof {
            lemma_cov_expand_start(*lattice, reach, heap@, seen@, current.path@, pos as int);
        }
        let cnt = lattice.nodes_ending_at[pos].len();
        let plen = current.path.len();
        let mut e: usize = 0;
        while e < cnt
            invariant
                lattice.wf(),
                eos == lattice.eos_index,
                bos == lattice.bos_index,
                m == dict.matrix,
                good == search_finds_first(*lattice, m, n as nat),
                big_f == lattice.node(eos as int).total_cost as int,
                head_idx == current.head_node,
                head_idx != bos,
                entry_ok(*lattice, m, good, big_f, current),
                -0x2_0000_0000 * current.path@.len() <= current.cost <= 0x2_0000_0000 * current.path@.len(),
                current.path@.len() == plen,
                current.f_cost == current.cost + lattice.node(head_idx as int).total_cost,
                pos == lattice.node(head_idx as int).start,
                pos <= lattice.len(),
                cnt == lattice.ending(pos as int).len(),
                -0x8000_0000 <= head_word_cost < 0x8000_0000,
                head_word_cost == lattice.node(head_idx as int).word_cost,
                head_left_id == lattice.node(head_idx as int).left_id,
                e <= cnt,
                forall|h: int| 0 <= h < heap@.len() ==> entry_ok(*lattice, m, good, big_f, #[trigger] heap@[h]),
                0 <= base <= heap@.len(),
                ps_ok == plain_solved(m, *lattice),
                last_f == current.f_cost,
                forall|h: int| 0 <= h < heap@.len() ==> (ps_ok ==> #[trigger] heap@[h].f_cost >= last_f),
                tight ==> current.f_cost == big_f,
                tight ==> 0 <= qs < cnt && lattice.node(lattice.ending(pos as int)[qs] as int).total_cost != i32_max()
                    && lattice.node(head_idx as int).total_cost == lattice.node(lattice.ending(pos as int)[qs] as int).total_cost
                    + plain_step(m, lattice.node(lattice.ending(pos as int)[qs] as int), lattice.node(head_idx as int)),
                tight ==> forall|k: int| best <= k < base ==> #[trigger] heap@[k].f_cost != big_f,
                tight ==> lt2 == -1 || (base <= lt2 < heap@.len() && heap@[lt2].f_cost == big_f && head_rank(
                    *lattice,
                    heap@[lt2].head_node as int,
                ) < head_rank(*lattice, head_idx as int)),
                tight ==> forall|k: int| base <= k < heap@.len() && k > lt2 ==> #[trigger] heap@[k].f_cost != big_f,
                tight ==> (e > qs ==> lt2 >= base),
                t == lattice.ordered(),
                reach == (|i: int| lattice.node(i).total_cost != i32_max()),
                popped == old_popped.insert(current.path@),
                closed_down(old_popped),
                t ==> !old_popped.contains(current.path@),
                reached_chain(*lattice, reach, current.path@),
                current.path@.len() >= 1,
                current.path@.last() == head_idx,
                sets_ok(*lattice, reach, heap@, popped, t),
                pending_cov(*lattice, reach, heap@, seen@, current.path@, pos as int, e as int),
                t ==> forall|h: int| 0 <= h < base && (#[trigger] heap@[h]).path@.len() >= 2 ==> heap@[h].path@.drop_last()
                    != current.path@,
                t ==> forall|h: int| 0 <= h < base ==> (#[trigger] heap@[h]).path@.len() < 2 || heap@[h].path@.drop_last()
                    != current.path@,
                t ==> forall|h: int| base <= h < heap@.len() ==> (#[trigger] heap@[h]).path@.drop_last() == current.path@
                    && heap@[h].path@.len() == current.path@.len() + 1 && exists|j: int|
                    0 <= j < e && lattice.ending(pos as int)[j] == heap@[h].path@.last(),
            decreases cnt - e,
        {
            let prev_idx = lattice.nodes_ending_at[pos][e];
            proof {
                assert(lattice.ending(pos as int)[e as int] == prev_idx);
            }
            let prev = &lattice.nodes[prev_idx];
            if prev.total_cost != i32::MAX {
                let conn = dict.matrix.get(prev.right_id, head_left_id) as i128;
                let step = conn + head_word_cost;
                let new_cost = current.cost + step;
                let new_f = new_cost + prev.total_cost as i128;
                let mut new_path = copy_path(&current.path);
                new_path.push(prev_idx);
                let ghost hb = heap@;
                let ghost child = PartialPath { f_cost: new_f, cost: new_cost, head_node: prev_idx, path: new_path };
                proof {
                    assert(step == plain_step(m, lattice.node(prev_idx as int), lattice.node(head_idx as int)));
                    lemma_child_entry(*lattice, m, good, big_f, current, child, e as int);
                }
                proof {
                    assert(child.path@ == current.path@.push(lattice.ending(pos as int)[e as int]));
                    lemma_sets_push(*lattice, reach, hb, child, old_popped, current.path@, pos as int, e as int, base, t);
                    lemma_cov_push(*lattice, reach, hb, seen@, current.path@, pos as int, e as int, child);
                }
                heap.push(PartialPath { f_cost: new_f, cost: new_cost, head_node: prev_idx, path: new_path });
                proof {
                    assert(heap@ =~= hb.push(child));
                    if t {
                        assert forall|h: int| base <= h < heap@.len() implies (#[trigger] heap@[h]).path@.drop_last() == current.path@
                            && heap@[h].path@.len() == current.path@.len() + 1 && exists|j: int|
                            0 <= j < e + 1 && lattice.ending(pos as int)[j] == heap@[h].path@.last() by {
                            if h < hb.len() {
                                assert(heap@[h] == hb[h]);
                                let j = choose|j: int| 0 <= j < e && lattice.ending(pos as int)[j] == hb[h].path@.last();
                                assert(0 <= j < e + 1);
                            } else {
                                assert(heap@[h] == child);
                                assert(child.path@.drop_last() =~= current.path@);
                                assert(lattice.ending(pos as int)[e as int] == child.path@.last());
                            }
                        }
                        assert forall|h: int| 0 <= h < base implies (#[trigger] heap@[h]).path@.len() < 2 || heap@[h].path@.drop_last()
                            != current.path@ by {
                            assert(heap@[h] == hb[h]);
                        }
                        assert forall|h: int| 0 <= h < base && (#[trigger] heap@[h]).path@.len() >= 2 implies heap@[h].path@.drop_last()
                            != current.path@ by {
                            assert(heap@[h] == hb[h]);
                        }
                    }
                    assert(heap@.last() == child);
                    assert forall|h: int| 0 <= h < heap@.len() implies entry_ok(*lattice, m, good, big_f, #[trigger] heap@[h])
                        && (ps_ok ==> heap@[h].f_cost >= last_f) by {
                        if h < hb.len() {
                            assert(heap@[h] == hb[h]);
                        }
                    }
                    if tight {
                        assert forall|k: int| best <= k < base implies #[trigger] heap@[k].f_cost != big_f by {
                            assert(heap@[k] == hb[k]);
                        }
                        if new_f == big_f {
                            lt2 = heap@.len() - 1;
                        } else if lt2 >= base {
                            assert(heap@[lt2] == hb[lt2]);
                        }
                        assert forall|k: int| base <= k < heap@.len() && k > lt2 implies #[trigger] heap@[k].f_cost != big_f by {
                            if k < hb.len() {
                                assert(heap@[k] == hb[k]);
                            }
                        }
                        if e as int == qs {
                            assert(new_f == big_f);
                        }
                    }
                }
            } else {
                proof {
                    if tight && e as int == qs {
                        assert(false);
                    }
                    lemma_cov_skip(*lattice, reach, heap@, seen@, current.path@, pos as int, e as int);
                    if t {
                        assert forall|h: int| base <= h < heap@.len() implies (#[trigger] heap@[h]).path@.drop_last() == current.path@
                            && heap@[h].path@.len() == current.path@.len() + 1 && exists|j: int|
                            0 <= j < e + 1 && lattice.ending(pos as int)[j] == heap@[h].path@.last() by {
                            let j = choose|j: int| 0 <= j < e && lattice.ending(pos as int)[j] == heap@[h].path@.last();
                            assert(0 <= j < e + 1);
                        }
                    }
                }
            }
            e += 1;
        }
        proof {
            lemma_cov_done(*lattice, reach, heap@, seen@, current.path@, pos as int);
            if tight {
                lt = lt2;
                assert forall|k: int| lt < k < heap@.len() implies #[trigger] heap@[k].f_cost != big_f by {
                    assert(k >= base);
                }
            }
        }
    }
    proof {
        if good {
            assert(chain_words(*lattice, first) == entries_view(results@[0]@));
        }
        if ps_ok {
            assert(paths_in_cost_order(m, *lattice, results@, paths));
        }
        if t && few && results@.len() < n {
            assert(heap@ =~= Seq::<PartialPath>::empty());
            lemma_cov_final(*lattice, reach, seen@, results@);
        }
    }
    results
}

impl ViterbiConverter {
    /// Up to `n` conversions of `hiragana` with distinct surfaces, each the
    /// words of a path through its lattice; none for an empty reading, for
    /// `n == 0` or when no path reaches the end. Under `plain_search` they
    /// come cheapest first; under `first_is_found` there is at least one,
    /// and the first costs the best conversion cost. When the lattice has
    /// fewer partial paths than the search budget (`few_partial_paths`) and
    /// fewer than `n` come back, no other surface of a path through reached
    /// nodes is left.
    pub fn n_best(&self, hiragana: &str, n: usize) -> (r: Vec<Vec<WordEntry>>)
        requires
            self.wf(),
        ensures
            r@.len() <= n,
            hiragana@.len() == 0 ==> r@.len() == 0,
            self.conversion_cost(hiragana@) == i32_max() ==> r@.len() == 0,
            forall|i: int| 0 <= i < r@.len() ==> words_of_full_path(self.spec_lattice(hiragana@), entries_view(#[trigger] r@[i]@)),
            distinct_surfaces(r@),
            filed_by_reading(self.dictionary.words()) ==> forall|i: int|
                0 <= i < r@.len() ==> join_readings(entries_view(#[trigger] r@[i]@)) == hiragana@,
            self.first_is_found(hiragana@, n as nat) ==> r@.len() >= 1 && exists|p: Seq<int>|
                is_path(self.spec_lattice(hiragana@), p) && p.last() == self.spec_lattice(hiragana@).eos_index
                    && #[trigger] chain_words(self.spec_lattice(hiragana@), p) == entries_view(r@[0]@) && plain_cost(
                    self.dictionary.matrix,
                    self.spec_lattice(hiragana@),
                    p,
                ) == self.conversion_cost(hiragana@),
            self.plain_search(hiragana@) ==> exists|ps: Seq<Seq<int>>| #[trigger] paths_in_cost_order(
                self.dictionary.matrix,
                self.spec_lattice(hiragana@),
                r@,
                ps,
            ),
            hiragana@.len() > 0 && self.conversion_cost(hiragana@) != i32_max() && self.few_partial_paths(
                hiragana@,
                n as nat,
            ) && r@.len() < n ==> surfaces_complete(self.spec_lattice(hiragana@), self.reached(hiragana@), r@),
    {
        let nbytes = byte_len(hiragana);
        proof {
            lemma_utf8_ge_len(hiragana@);
        }
        if nbytes == 0 || n == 0 {
            proof {
                assert(paths_in_cost_order(self.dictionary.matrix, self.spec_lattice(hiragana@), Seq::empty(), Seq::empty()));
            }
            return Vec::new();
        }
        let mut lattice = self.build_lattice(hiragana);
        let ghost orig = lattice;
        let ghost m = self.dictionary.matrix;
        let ghost big = self.learned_bigram@;
        self.find_best_path(&mut lattice);
        let ghost l = self.spec_lattice(hiragana@);
        proof {
            assert(self.lattice_of(hiragana@, l));
            lemma_same_graph(orig, l);
            lemma_total_same(m, big, orig, l, orig.eos_index as int);
            assert(orig.eos_index < orig.nodes@.len());
        }
        if lattice.nodes[lattice.eos_index].total_cost == i32::MAX {
            proof {
                assert(paths_in_cost_order(m, l, Seq::empty(), Seq::empty()));
            }
            return Vec::new();
        }
        let r = n_best_from_lattice(&lattice, &self.dictionary, n);
        proof {
            assert(solved(m, big, orig, lattice));
            assert(same_graph(lattice, l)) by {
                assert forall|i: int| 0 <= i < lattice.nodes@.len() implies #[trigger] shape(lattice.node(i)) == shape(l.node(i)) by {
                    assert(shape(orig.node(i)) == shape(l.node(i)));
                    assert(orig.node(i).start == lattice.node(i).start);
                }
                assert forall|p: int| 0 <= p <= lattice.len() implies #[trigger] lattice.ending(p) == l.ending(p) by {
                    assert(orig.ending(p) == l.ending(p));
                }
            }
            assert forall|i: int| 0 <= i < r@.len() implies words_of_full_path(l, entries_view(#[trigger] r@[i]@)) by {
                assert(words_of_full_path(lattice, entries_view(r@[i]@)));
                let p = choose|p: Seq<int>| is_path(lattice, p) && p.last() == lattice.eos_index && #[trigger] chain_words(lattice, p) == entries_view(r@[i]@);
                lemma_path_same(m, big, lattice, l, p);
            }
            if filed_by_reading(self.dictionary.words()) {
                assert forall|i: int| 0 <= i < r@.len() implies join_readings(entries_view(#[trigger] r@[i]@))
                    == hiragana@ by {
                    law_full_paths_read_input(*self, hiragana@, l, entries_view(r@[i]@));
                }
            }
            let rl = |i: int| lattice.node(i).total_cost != i32_max();
            assert(lattice.ordered()) by {
                assert(lattice.len() == orig.len());
                assert forall|p: int| 0 <= p <= lattice.len() implies #[trigger] lattice.ending(p) == orig.ending(p) by {}
            }
            assert forall|i: int| 0 <= i < lattice.nodes@.len() implies #[trigger] rl(i) == self.reached(hiragana@)(i) by {
                lemma_total_same(m, big, orig, l, i);
            }
            lemma_complete_same(m, big, lattice, l, rl, self.reached(hiragana@), r@, search_budget(n as nat));
            if self.plain_search(hiragana@) {
                lemma_same_graph(l, orig);
                lemma_steps_in_range_same(m, big, l, orig);
                lemma_plain_solved(m, orig, lattice);
                let ps = choose|ps: Seq<Seq<int>>| #[trigger] paths_in_cost_order(m, lattice, r@, ps);
                lemma_order_same(m, big, lattice, l, r@, ps);
            }
            if self.first_is_found(hiragana@, n as nat) {
                lemma_same_graph(l, orig);
                lemma_steps_in_range_same(m, big, l, orig);
                lemma_plain_solved(m, orig, lattice);
                assert(lattice.input@ == hiragana@);
                assert(search_finds_first(lattice, m, n as nat));
                let p = choose|p: Seq<int>| is_path(lattice, p) && p.last() == lattice.eos_index && #[trigger] chain_words(lattice, p) == entries_view(r@[0]@)
                    && plain_cost(m, lattice, p) == lattice.node(lattice.eos_index as int).total_cost;
                lemma_path_same(m, big, lattice, l, p);
                lemma_plain_cost_same(m, lattice, l, p);
                assert(chain_words(l, p) == entries_view(r@[0]@));
            }
        }
        r
    }

    /// Which nodes of the lattice of `s` the search reaches: those whose
    /// best cost is below the maximum.
    pub open spec fn reached(&self, s: Seq<char>) -> spec_fn(int) -> bool {
        let l = self.spec_lattice(s);
        |i: int| best_total(self.dictionary.matrix, self.learned_bigram@, l, i) != i32_max()
    }

    /// The lattice of `s` has fewer partial paths through reached nodes
    /// than the search may take steps for `n` results: the search then runs
    /// until it has `n` results or none is left.
    pub open spec fn few_partial_paths(&self, s: Seq<char>, n: nat) -> bool {
        few_chains(self.spec_lattice(s), self.reached(s), search_budget(n))
    }

    /// The conditions under which `n_best` is sure to return a first
    /// conversion: one is asked for, the reading is not empty and shorter
    /// than the search budget less one byte, no connections are learned,
    /// its end is reached, and
    /// every step of the search stays within `i32`.
    pub open spec fn first_is_found(&self, s: Seq<char>, n: nat) -> bool {
        &&& n > 0
        &&& s.len() > 0
        &&& utf8_len(s) + 1 < search_budget(n)
        &&& self.conversion_cost(s) != i32_max()
        &&& self.plain_search(s)
    }

    /// No connections are learned, and every step of the search over the
    /// lattice of `s` stays within `i32`: the search then ranks by plain
    /// costs.
    pub open spec fn plain_search(&self, s: Seq<char>) -> bool {
        &&& self.learned_bigram@ == Map::<PairKey, i32>::empty()
        &&& steps_in_range(self.dictionary.matrix, self.learned_bigram@, self.spec_lattice(s))
    }

    /// Up to `n` conversions of `hiragana`, as strings (see `n_best`).
    pub fn n_best_strings(&self, hiragana: &str, n: usize) -> (r: Vec<String>)
        requires
            self.wf(),
        ensures
            r@.len() <= n,
            hiragana@.len() == 0 ==> r@.len() == 0,
            self.conversion_cost(hiragana@) == i32_max() ==> r@.len() == 0,
            forall|i: int| 0 <= i < r@.len() ==> string_of_full_path(self.spec_lattice(hiragana@), #[trigger] r@[i]@),
            forall|i: int, j: int| 0 <= i < j < r@.len() ==> (#[trigger] r@[i])@ != (#[trigger] r@[j])@,
            self.first_is_found(hiragana@, n as nat) ==> r@.len() >= 1 && exists|p: Seq<int>|
                is_path(self.spec_lattice(hiragana@), p) && p.last() == self.spec_lattice(hiragana@).eos_index
                    && r@[0]@ == join_surfaces(#[trigger] chain_words(self.spec_lattice(hiragana@), p)) && plain_cost(
                    self.dictionary.matrix,
                    self.spec_lattice(hiragana@),
                    p,
                ) == self.conversion_cost(hiragana@),
            self.plain_search(hiragana@) ==> exists|ps: Seq<Seq<int>>| #[trigger] strings_in_cost_order(
                self.dictionary.matrix,
                self.spec_lattice(hiragana@),
                r@,
                ps,
            ),
            hiragana@.len() > 0 && self.conversion_cost(hiragana@) != i32_max() && self.few_partial_paths(
                hiragana@,
                n as nat,
            ) && r@.len() < n ==> strings_complete(self.spec_lattice(hiragana@), self.reached(hiragana@), r@),
    {
        let all = self.n_best(hiragana, n);
        let mut out: Vec<String> = Vec::new();
        let mut k: usize = 0;
        while k < all.len()
            invariant
                k <= all@.len(),
                out@.len() == k,
                forall|i: int| 0 <= i < k ==> (#[trigger] out@[i])@ == join_surfaces(entries_view(all@[i]@)),
            decreases all@.len() - k,
        {
            out.push(concat_surfaces(&all[k]));
            k += 1;
        }
        proof {
            assert forall|i: int| 0 <= i < out@.len() implies string_of_full_path(self.spec_lattice(hiragana@), #[trigger] out@[i]@) by {
                let ws = entries_view(all@[i]@);
                assert(words_of_full_path(self.spec_lattice(hiragana@), ws));
                assert(out@[i]@ == join_surfaces(ws));
            }
            assert forall|i: int, j: int| 0 <= i < j < out@.len() implies (#[trigger] out@[i])@ != (#[trigger] out@[j])@ by {
                assert(join_surfaces(entries_view(all@[i]@)) != join_surfaces(entries_view(all@[j]@)));
            }
            if hiragana@.len() > 0 && self.conversion_cost(hiragana@) != i32_max() && self.few_partial_paths(hiragana@, n as nat)
                && out@.len() < n {
                let l = self.spec_lattice(hiragana@);
                let reach = self.reached(hiragana@);
                assert forall|p: Seq<int>|
                    is_path(l, p) && p.last() == l.eos_index && (forall|k: int| 0 <= k < p.len() - 1 ==> reach(#[trigger] p[k]))
                    implies exists|i: int| 0 <= i < out@.len() && (#[trigger] out@[i])@ == join_surfaces(chain_words(l, p)) by {
                    assert(surfaces_complete(l, reach, all@));
                    let i = choose|i: int| 0 <= i < all@.len() && join_surfaces(entries_view(#[trigger] all@[i]@)) == join_surfaces(
                        chain_words(l, p));
                    assert(out@[i]@ == join_surfaces(entries_view(all@[i]@)));
                }
            }
            if self.plain_search(hiragana@) {
                let l = self.spec_lattice(hiragana@);
                let ps = choose|ps: Seq<Seq<int>>| #[trigger] paths_in_cost_order(self.dictionary.matrix, l, all@, ps);
                assert forall|i: int| 0 <= i < ps.len() implies is_path(l, #[trigger] ps[i]) && ps[i].last() == l.eos_index
                    && out@[i]@ == join_surfaces(chain_words(l, ps[i])) by {
                    assert(out@[i]@ == join_surfaces(entries_view(all@[i]@)));
                }
                assert(strings_in_cost_order(self.dictionary.matrix, l, out@, ps));
            }
            if self.first_is_found(hiragana@, n as nat) {
                let l = self.spec_lattice(hiragana@);
                let p = choose|p: Seq<int>| is_path(l, p) && p.last() == l.eos_index && #[trigger] chain_words(l, p) == entries_view(all@[0]@)
                    && plain_cost(self.dictionary.matrix, l, p) == self.conversion_cost(hiragana@);
                assert(out@[0]@ == join_surfaces(chain_words(l, p)));
            }
        }
        out
    }
}


/// The readings of `ws`, one after another.
pub open spec fn join_readings(ws: Seq<WordSpec>) -> Seq<char>
    decreases ws.len(),
{
    if ws.len() == 0 {
        Seq::empty()
    } else {
        join_readings(ws.drop_last()) + ws.last().reading
    }
}

proof fn lemma_offset_inj(s: Seq<char>, a: int, b: int)
    requires
        0 <= a <= s.len(),
        0 <= b <= s.len(),
        offset(s, a) == offset(s, b),
    ensures
        a == b,
{
    if a < b {
        lemma_offset_lt(s, a, b);
    } else if b < a {
        lemma_offset_lt(s, b, a);
    }
}

proof fn lemma_path_prefix(l: Lattice, p: Seq<int>)
    requires
        is_path(l, p),
        p.len() >= 2,
    ensures
        is_path(l, p.drop_last()),
        p.drop_last().last() != l.eos_index,
{
    let q = p.drop_last();
    assert forall|k: int| 0 <= k < q.len() implies 0 <= #[trigger] q[k] < l.nodes@.len() by {
        assert(q[k] == p[k]);
    }
    assert forall|k: int| 1 <= k < q.len() implies #[trigger] q[k] != l.bos_index && q[k - 1] != l.eos_index
        && l.node(q[k - 1]).end == l.node(q[k]).start by {
        assert(q[k] == p[k] && q[k - 1] == p[k - 1]);
    }
    assert(p[p.len() - 1] != l.bos_index && p[p.len() - 2] != l.eos_index);
}

/// Along a path from the begin node that stops before the end node, the
/// readings read the input up to the character where the last node ends.
proof fn lemma_prefix_reads(c: ViterbiConverter, s: Seq<char>, l: Lattice, p: Seq<int>) -> (j: int)
    requires
        c.wf(),
        filed_by_reading(c.dictionary.words()),
        c.lattice_of(s, l),
        is_path(l, p),
        p.last() != l.eos_index,
    ensures
        0 <= j <= s.len(),
        l.node(p.last()).end == offset(s, j),
        join_readings(chain_words(l, p)) == s.take(j),
    decreases p.len(),
{
    assert(l.shapes()[0] == shape(l.node(0)));
    assert(c.spec_shapes(s)[0].end == 0);
    if p.len() == 1 {
        assert(p.last() == p[0]);
        assert(p.drop_last() =~= Seq::<int>::empty());
        assert(s.take(0) =~= Seq::<char>::empty());
        assert(chain_words(l, p) == chain_words(l, p.drop_last()));
        0
    } else {
        let q = p.drop_last();
        lemma_path_prefix(l, p);
        let j = lemma_prefix_reads(c, s, l, q);
        let x = p.last();
        assert(x == p[p.len() - 1]);
        assert(q.last() == p[p.len() - 2]);
        assert(2 <= x < l.nodes@.len());
        law_nodes_read_input(c, s, l);
        let sh = shape(l.node(x));
        assert(reads_input(sh, s));
        let (i, j2) = choose|i: int, j2: int| #[trigger] reads_span(sh, s, i, j2);
        assert(sh.start == l.node(q.last()).end);
        lemma_offset_inj(s, i, j);
        let e = l.node(x).entry.unwrap();
        assert(chain_words(l, p) == chain_words(l, q).push(e@));
        assert(e@.reading == s.subrange(j, j2));
        assert(chain_words(l, p).drop_last() =~= chain_words(l, q));
        assert(s.take(j) + s.subrange(j, j2) =~= s.take(j2));
        j2
    }
}

/// In the lattice of a reading, the readings of the words of any path from
/// the begin node to the end node, one after another, give the reading back,
/// when every dictionary word is filed under its own reading.
pub proof fn law_full_paths_read_input(c: ViterbiConverter, s: Seq<char>, l: Lattice, ws: Seq<WordSpec>)
    requires
        c.wf(),
        filed_by_reading(c.dictionary.words()),
        c.lattice_of(s, l),
        words_of_full_path(l, ws),
    ensures
        join_readings(ws) == s,
{
    let p = choose|p: Seq<int>| is_path(l, p) && p.last() == l.eos_index && #[trigger] chain_words(l, p) == ws;
    assert(p.len() >= 2) by {
        if p.len() == 1 {
            assert(p.last() == p[0]);
        }
    }
    lemma_path_prefix(l, p);
    let q = p.drop_last();
    let j = lemma_prefix_reads(c, s, l, q);
    assert(p.last() == p[p.len() - 1]);
    assert(q.last() == p[p.len() - 2]);
    assert(l.shapes()[1] == shape(l.node(1)));
    assert(c.spec_shapes(s)[1].start == utf8_len(s));
    assert(s.take(s.len() as int) =~= s);
    lemma_offset_inj(s, j, s.len() as int);
    assert(chain_words(l, p) == chain_words(l, q));
}

} // verus!
