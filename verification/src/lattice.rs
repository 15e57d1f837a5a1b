//! The lattice of word candidates over an input, addressed by byte offsets.

use vstd::prelude::*;
use crate::dictionary::{WordEntry, WordSpec, PosId, utf8_len, byte_len};

verus! {

pub open spec fn i32_max() -> i32 {
    0x7FFF_FFFF
}

/// `a + b` clamped to the range of `i32`.
pub open spec fn sat(v: int) -> i32 {
    if v > 0x7FFF_FFFF {
        0x7FFF_FFFFi32
    } else if v < -0x8000_0000 {
        -0x8000_0000i32
    } else {
        v as i32
    }
}

/// Saturating addition of two `i32` values.
pub fn sat_add(a: i32, b: i32) -> (r: i32)
    ensures
        r == sat(a + b),
{
    let s = (a as i64) + (b as i64);
    if s > 0x7FFF_FFFF {
        i32::MAX
    } else if s < -0x8000_0000 {
        i32::MIN
    } else {
        s as i32
    }
}

/// Saturating subtraction of two `i32` values.
pub fn sat_sub(a: i32, b: i32) -> (r: i32)
    ensures
        r == sat(a - b),
{
    let s = (a as i64) - (b as i64);
    if s > 0x7FFF_FFFF {
        i32::MAX
    } else if s < -0x8000_0000 {
        i32::MIN
    } else {
        s as i32
    }
}

/// A node of the lattice.
pub struct LatticeNode {
    /// Start offset in bytes.
    pub start: usize,
    /// End offset in bytes.
    pub end: usize,
    /// The word (none for the sentence begin and end).
    pub entry: Option<WordEntry>,
    /// Left context id.
    pub left_id: PosId,
    /// Right context id.
    pub right_id: PosId,
    /// Word cost.
    pub word_cost: i32,
    /// Lowest cost of a path from the sentence begin to this node.
    pub total_cost: i32,
    /// Predecessor on that path.
    pub prev_node: Option<usize>,
}

pub open spec fn opt_entry_view(e: Option<WordEntry>) -> Option<WordSpec> {
    match e {
        Some(w) => Some(w@),
        None => None,
    }
}

impl LatticeNode {
    /// Sentence-begin node.
    pub fn bos(bos_id: PosId) -> (r: Self)
        ensures
            r.start == 0 && r.end == 0 && r.entry is None && r.left_id == bos_id && r.right_id == bos_id,
            r.word_cost == 0 && r.total_cost == 0 && r.prev_node is None,
    {
        LatticeNode {
            start: 0,
            end: 0,
            entry: None,
            left_id: bos_id,
            right_id: bos_id,
            word_cost: 0,
            total_cost: 0,
            prev_node: None,
        }
    }

    /// Sentence-end node at `pos`.
    pub fn eos(pos: usize, eos_id: PosId) -> (r: Self)
        ensures
            r.start == pos && r.end == pos && r.entry is None && r.left_id == eos_id && r.right_id == eos_id,
            r.word_cost == 0 && r.total_cost == i32_max() && r.prev_node is None,
    {
        LatticeNode {
            start: pos,
            end: pos,
            entry: None,
            left_id: eos_id,
            right_id: eos_id,
            word_cost: 0,
            total_cost: i32::MAX,
            prev_node: None,
        }
    }

    /// Word node spanning `start..end`.
    pub fn word(start: usize, end: usize, entry: WordEntry) -> (r: Self)
        ensures
            r.start == start && r.end == end && opt_entry_view(r.entry) == Some(entry@),
            r.left_id == entry.left_id && r.right_id == entry.right_id,
            r.word_cost == entry.cost as i32 && r.total_cost == i32_max() && r.prev_node is None,
    {
        let left_id = entry.left_id;
        let right_id = entry.right_id;
        let word_cost = entry.cost as i32;
        LatticeNode {
            start,
            end,
            left_id,
            right_id,
            word_cost,
            total_cost: i32::MAX,
            prev_node: None,
            entry: Some(entry),
        }
    }

    /// Unknown-word node: the surface is its own reading and the part of
    /// speech is 未知語.
    pub fn unknown(start: usize, end: usize, surface: String, default_id: PosId, cost: i32) -> (r: Self)
        ensures
            r.start == start && r.end == end,
            r.entry matches Some(e) && e.surface@ == surface@ && e.reading@ == surface@ && e.left_id
                == default_id && e.right_id == default_id && e.cost == cost as i16 && e.pos@
                == "未知語"@,
            r.left_id == default_id && r.right_id == default_id,
            r.word_cost == cost && r.total_cost == i32_max() && r.prev_node is None,
    {
        let reading = surface.clone();
        LatticeNode {
            start,
            end,
            entry: Some(
                WordEntry {
                    surface,
                    reading,
                    left_id: default_id,
                    right_id: default_id,
                    cost: cost as i16,
                    pos: "未知語".to_owned(),
                },
            ),
            left_id: default_id,
            right_id: default_id,
            word_cost: cost,
            total_cost: i32::MAX,
            prev_node: None,
        }
    }
}

/// What the search reads of a node: its span, word, context ids and cost.
pub struct NodeShape {
    pub start: nat,
    pub end: nat,
    pub entry: Option<WordSpec>,
    pub left_id: PosId,
    pub right_id: PosId,
    pub word_cost: i32,
}

pub open spec fn shape(n: LatticeNode) -> NodeShape {
    NodeShape {
        start: n.start as nat,
        end: n.end as nat,
        entry: opt_entry_view(n.entry),
        left_id: n.left_id,
        right_id: n.right_id,
        word_cost: n.word_cost,
    }
}

/// The graph of word candidates over an input.
pub struct Lattice {
    /// The input text.
    pub input: String,
    /// For each byte offset, the nodes that start there.
    pub nodes_starting_at: Vec<Vec<usize>>,
    /// For each byte offset, the nodes that end there.
    pub nodes_ending_at: Vec<Vec<usize>>,
    /// All nodes.
    pub nodes: Vec<LatticeNode>,
    /// Index of the sentence-begin node.
    pub bos_index: usize,
    /// Index of the sentence-end node.
    pub eos_index: usize,
}

impl Lattice {
    /// Byte length of the input.
    pub open spec fn len(&self) -> nat {
        utf8_len(self.input@)
    }

    pub open spec fn node(&self, i: int) -> LatticeNode {
        self.nodes@[i]
    }

    pub open spec fn starting(&self, p: int) -> Seq<usize> {
        self.nodes_starting_at@[p]@
    }

    pub open spec fn ending(&self, p: int) -> Seq<usize> {
        self.nodes_ending_at@[p]@
    }

    /// Structure: index lists per offset, the begin node at 0 and the end
    /// node at the input's end, and every other node of positive length.
    pub open spec fn wf(&self) -> bool {
        let n = self.nodes@.len();
        let len = self.len();
        &&& n <= usize::MAX
        &&& self.nodes_starting_at@.len() == len + 1
        &&& self.nodes_ending_at@.len() == len + 1
        &&& self.bos_index < n
        &&& self.eos_index < n
        &&& self.bos_index != self.eos_index
        &&& self.node(self.bos_index as int).start == 0
        &&& self.node(self.bos_index as int).end == 0
        &&& self.node(self.eos_index as int).start == len
        &&& self.node(self.eos_index as int).end == len
        &&& forall|i: int|
            0 <= i < n ==> #[trigger] self.node(i).start <= self.node(i).end && self.node(i).end <= len
        &&& forall|i: int|
            0 <= i < n && i != self.bos_index && i != self.eos_index ==> #[trigger] self.node(i).start < self.node(i).end
        &&& forall|p: int, k: int|
            0 <= p <= len && 0 <= k < self.starting(p).len() ==> {
                let i = #[trigger] self.starting(p)[k];
                &&& i < n
                &&& self.node(i as int).start == p
                &&& i != self.bos_index
            }
        &&& forall|p: int, k: int|
            0 <= p <= len && 0 <= k < self.ending(p).len() ==> {
                let i = #[trigger] self.ending(p)[k];
                &&& i < n
                &&& self.node(i as int).end == p
                &&& i != self.eos_index
            }
        &&& forall|i: int|
            0 <= i < n && i != self.bos_index ==> #[trigger] self.starting(self.node(i).start as int).contains(i as usize)
        &&& forall|i: int|
            0 <= i < n && i != self.eos_index ==> #[trigger] self.ending(self.node(i).end as int).contains(i as usize)
    }

    /// The shapes of the nodes, in index order.
    pub open spec fn shapes(&self) -> Seq<NodeShape> {
        self.nodes@.map_values(|n: LatticeNode| shape(n))
    }

    /// The nodes ending at each offset are listed in increasing index order.
    pub open spec fn ordered(&self) -> bool {
        forall|p: int, a: int, b: int|
            #![trigger self.ending(p)[a], self.ending(p)[b]]
            0 <= p <= self.len() && 0 <= a < b < self.ending(p).len() ==> self.ending(p)[a] < self.ending(p)[b]
    }

    /// Costs as a new lattice has them: 0 at the begin node, the maximum
    /// elsewhere, and no predecessors.
    pub open spec fn fresh(&self) -> bool {
        &&& self.node(self.bos_index as int).total_cost == 0
        &&& forall|i: int|
            0 <= i < self.nodes@.len() ==> (#[trigger] self.node(i)).prev_node is None && (i
                != self.bos_index ==> self.node(i).total_cost == i32_max())
    }

    /// New lattice for `input` with its begin and end nodes.
    pub fn new(input: &str, bos_id: PosId, eos_id: PosId) -> (r: Self)
        ensures
            r.wf(),
            r.fresh(),
            r.ordered(),
            r.input@ == input@,
            r.nodes@.len() == 2,
            r.bos_index == 0 && r.eos_index == 1,
            r.node(0).left_id == bos_id && r.node(0).right_id == bos_id && r.node(0).entry is None,
            r.node(1).left_id == eos_id && r.node(1).right_id == eos_id && r.node(1).entry is None,
            r.node(0).word_cost == 0 && r.node(1).word_cost == 0,
            forall|q: int| 0 <= q <= r.len() ==> #[trigger] r.starting(q) == (if q == r.len() {
                seq![1usize]
            } else {
                Seq::<usize>::empty()
            }) && r.ending(q) == (if q == 0 {
                seq![0usize]
            } else {
                Seq::<usize>::empty()
            }),
    {
        let len = byte_len(input);
        let mut starting: Vec<Vec<usize>> = Vec::new();
        let mut ending: Vec<Vec<usize>> = Vec::new();
        let mut p: usize = 0;
        loop
            invariant_except_break
                starting@.len() == p,
                ending@.len() == p,
                forall|q: int| 0 <= q < p ==> (#[trigger] starting@[q])@.len() == 0 && ending@[q]@.len() == 0,
            invariant
                p <= len,
            ensures
                starting@.len() == len + 1,
                ending@.len() == len + 1,
                forall|q: int| 0 <= q <= len ==> (#[trigger] starting@[q])@.len() == 0 && ending@[q]@.len() == 0,
            decreases len - p,
        {
            starting.push(Vec::new());
            ending.push(Vec::new());
            if p == len {
                break;
            }
            p += 1;
        }
        let mut nodes: Vec<LatticeNode> = Vec::new();
        nodes.push(LatticeNode::bos(bos_id));
        nodes.push(LatticeNode::eos(len, eos_id));
        ending[0].push(0);
        starting[len].push(1);
        let _n = nodes.len();
        let r = Lattice {
            input: input.to_owned(),
            nodes_starting_at: starting,
            nodes_ending_at: ending,
            nodes,
            bos_index: 0,
            eos_index: 1,
        };
        proof {
            assert(r.len() == len);
            assert forall|q: int| 0 <= q <= len implies r.starting(q) == (if q == len { seq![1usize] } else { Seq::<usize>::empty() }) && r.ending(q) == (if q == 0 { seq![0usize] } else { Seq::<usize>::empty() }) by {
                assert(r.starting(q) =~= (if q == len { seq![1usize] } else { Seq::<usize>::empty() }));
                assert(r.ending(q) =~= (if q == 0 { seq![0usize] } else { Seq::<usize>::empty() }));
            }
            assert forall|i: int| 0 <= i < 2 && i != r.bos_index implies #[trigger] r.starting(r.node(i).start as int).contains(i as usize) by {
                assert(r.starting(len as int)[r.starting(len as int).len() - 1] == 1);
            }
            assert forall|i: int| 0 <= i < 2 && i != r.eos_index implies #[trigger] r.ending(r.node(i).end as int).contains(i as usize) by {
                assert(r.ending(0)[r.ending(0).len() - 1] == 0);
            }
        }
        r
    }
}


impl Lattice {
    pub(crate) fn add_node(&mut self, node: LatticeNode) -> (index: usize)
        requires
            old(self).wf(),
            old(self).fresh(),
            node.start < node.end <= old(self).len(),
            node.total_cost == i32_max(),
            node.prev_node is None,
        ensures
            final(self).wf(),
            final(self).fresh(),
            old(self).ordered() ==> final(self).ordered(),
            index == old(self).nodes@.len(),
            final(self).nodes@ == old(self).nodes@.push(node),
            final(self).input == old(self).input,
            final(self).bos_index == old(self).bos_index,
            final(self).eos_index == old(self).eos_index,
    {
        let index = self.nodes.len();
        let start = node.start;
        let end = node.end;
        let ghost before = *self;
        self.nodes.push(node);
        self.nodes_starting_at[start].push(index);
        self.nodes_ending_at[end].push(index);
        let _n = self.nodes.len();
        proof {
            let n = self.nodes@.len();
            assert(self.len() == before.len());
            assert forall|q: int| 0 <= q <= self.len() implies self.starting(q) == (if q == start { before.starting(q).push(index) } else { before.starting(q) }) && self.ending(q) == (if q == end { before.ending(q).push(index) } else { before.ending(q) }) by {}
            assert forall|i: int| 0 <= i < n implies #[trigger] self.node(i) == (if i == index { node } else { before.node(i) }) by {}
            assert forall|p: int, k: int|
                0 <= p <= self.len() && 0 <= k < self.starting(p).len() implies ({
                    let i = #[trigger] self.starting(p)[k];
                    &&& i < n
                    &&& self.node(i as int).start == p
                    &&& i != self.bos_index
                }) by {
                if p == start && k == self.starting(p).len() - 1 {
                } else {
                    assert(self.starting(p)[k] == before.starting(p)[k]);
                }
            }
            assert forall|p: int, k: int|
                0 <= p <= self.len() && 0 <= k < self.ending(p).len() implies ({
                    let i = #[trigger] self.ending(p)[k];
                    &&& i < n
                    &&& self.node(i as int).end == p
                    &&& i != self.eos_index
                }) by {
                if p == end && k == self.ending(p).len() - 1 {
                } else {
                    assert(self.ending(p)[k] == before.ending(p)[k]);
                }
            }
            assert forall|i: int| 0 <= i < n && i != self.bos_index implies #[trigger] self.starting(self.node(i).start as int).contains(i as usize) by {
                if i == index {
                    assert(self.starting(start as int)[self.starting(start as int).len() - 1] == index);
                } else {
                    assert(self.node(i) == before.node(i));
                    let e = self.node(i).start as int;
                    assert(0 <= e <= self.len());
                    assert(self.starting(e) == (if e == start { before.starting(e).push(index) } else { before.starting(e) }));
                    assert(before.starting(before.node(i).start as int).contains(i as usize));
                    let k = choose|k: int| 0 <= k < before.starting(before.node(i).start as int).len() && before.starting(before.node(i).start as int)[k] == i as usize;
                    assert(self.starting(self.node(i).start as int)[k] == i as usize);
                }
            }
            assert forall|i: int| 0 <= i < n && i != self.eos_index implies #[trigger] self.ending(self.node(i).end as int).contains(i as usize) by {
                if i == index {
                    assert(self.ending(end as int)[self.ending(end as int).len() - 1] == index);
                } else {
                    assert(self.node(i) == before.node(i));
                    let e = self.node(i).end as int;
                    assert(before.node(i).start <= before.node(i).end);
                    assert(0 <= e <= self.len());
                    assert(self.ending(e) == (if e == end { before.ending(e).push(index) } else { before.ending(e) }));
                    assert(before.ending(before.node(i).end as int).contains(i as usize));
                    let k = choose|k: int| 0 <= k < before.ending(before.node(i).end as int).len() && before.ending(before.node(i).end as int)[k] == i as usize;
                    assert(self.ending(self.node(i).end as int)[k] == i as usize);
                }
            }
            if before.ordered() {
                assert forall|p: int, a: int, b: int|
                    #![trigger self.ending(p)[a], self.ending(p)[b]]
                    0 <= p <= self.len() && 0 <= a < b < self.ending(p).len() implies self.ending(p)[a] < self.ending(p)[b] by {
                    if p == end && b == self.ending(p).len() - 1 {
                        assert(self.ending(p)[a] == before.ending(p)[a]);
                        assert(before.ending(p)[a] < before.nodes@.len());
                    } else {
                        assert(self.ending(p)[a] == before.ending(p)[a]);
                        assert(self.ending(p)[b] == before.ending(p)[b]);
                    }
                }
            }
        }
        index
    }

    /// Adds a word node over `start..end`.
    pub fn add_word(&mut self, start: usize, end: usize, entry: WordEntry)
        requires
            old(self).wf(),
            old(self).fresh(),
            start < end <= old(self).len(),
        ensures
            final(self).wf(),
            final(self).fresh(),
            old(self).ordered() ==> final(self).ordered(),
            final(self).input == old(self).input,
            final(self).bos_index == old(self).bos_index,
            final(self).eos_index == old(self).eos_index,
            final(self).nodes@.len() == old(self).nodes@.len() + 1,
            forall|i: int| 0 <= i < old(self).nodes@.len() ==> #[trigger] final(self).node(i) == old(self).node(i),
            ({
                let nd = final(self).node(old(self).nodes@.len() as int);
                &&& nd.start == start && nd.end == end
                &&& opt_entry_view(nd.entry) == Some(entry@)
                &&& nd.left_id == entry.left_id && nd.right_id == entry.right_id
                &&& nd.word_cost == entry.cost as i32
            }),
    {
        let node = LatticeNode::word(start, end, entry);
        self.add_node(node);
    }

    /// Adds an unknown-word node over `start..end`.
    pub fn add_unknown(&mut self, start: usize, end: usize, surface: String, default_id: PosId, cost: i32)
        requires
            old(self).wf(),
            old(self).fresh(),
            start < end <= old(self).len(),
        ensures
            final(self).wf(),
            final(self).fresh(),
            old(self).ordered() ==> final(self).ordered(),
            final(self).input == old(self).input,
            final(self).bos_index == old(self).bos_index,
            final(self).eos_index == old(self).eos_index,
            final(self).nodes@.len() == old(self).nodes@.len() + 1,
            forall|i: int| 0 <= i < old(self).nodes@.len() ==> #[trigger] final(self).node(i) == old(self).node(i),
            ({
                let nd = final(self).node(old(self).nodes@.len() as int);
                &&& nd.start == start && nd.end == end
                &&& nd.entry matches Some(e) && e.surface@ == surface@ && e.reading@ == surface@ && e.left_id
                    == default_id && e.right_id == default_id && e.cost == cost as i16 && e.pos@
                    == "未知語"@
                &&& nd.left_id == default_id && nd.right_id == default_id
                &&& nd.word_cost == cost
            }),
    {
        let node = LatticeNode::unknown(start, end, surface, default_id, cost);
        self.add_node(node);
    }
}
} // verus!
