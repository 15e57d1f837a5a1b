//! Levenshtein distance between character sequences.

use vstd::prelude::*;

verus! {

pub open spec fn min3(a: nat, b: nat, c: nat) -> nat {
    if a <= b && a <= c {
        a
    } else if b <= c {
        b
    } else {
        c
    }
}

/// Levenshtein distance (insertions, deletions and substitutions of one
/// character each cost 1).
pub open spec fn edit_distance(a: Seq<char>, b: Seq<char>) -> nat
    decreases a.len() + b.len(),
{
    if a.len() == 0 {
        b.len()
    } else if b.len() == 0 {
        a.len()
    } else {
        min3(
            edit_distance(a.drop_last(), b) + 1,
            edit_distance(a, b.drop_last()) + 1,
            edit_distance(a.drop_last(), b.drop_last()) + if a.last() == b.last() {
                0nat
            } else {
                1nat
            },
        )
    }
}

/// The distance is at least the difference of the lengths.
pub proof fn lemma_distance_len_gap(a: Seq<char>, b: Seq<char>)
    ensures
        edit_distance(a, b) >= a.len() - b.len(),
        edit_distance(a, b) >= b.len() - a.len(),
    decreases a.len() + b.len(),
{
    if a.len() > 0 && b.len() > 0 {
        lemma_distance_len_gap(a.drop_last(), b);
        lemma_distance_len_gap(a, b.drop_last());
        lemma_distance_len_gap(a.drop_last(), b.drop_last());
    }
}

/// A sequence is at distance 0 from itself.
pub proof fn lemma_distance_self(a: Seq<char>)
    ensures
        edit_distance(a, a) == 0,
    decreases a.len(),
{
    if a.len() > 0 {
        lemma_distance_self(a.drop_last());
    }
}

fn min3_exec(a: usize, b: usize, c: usize) -> (r: usize)
    ensures
        r == min3(a as nat, b as nat, c as nat),
{
    if a <= b && a <= c {
        a
    } else if b <= c {
        b
    } else {
        c
    }
}

/// Levenshtein distance of two character slices.
pub fn edit_distance_chars(a: &[char], b: &[char]) -> (r: usize)
    requires
        a.len() + b.len() < usize::MAX,
    ensures
        r == edit_distance(a@, b@),
{
    let m = b.len();
    let mut prev: Vec<usize> = Vec::new();
    let mut j: usize = 0;
    while j <= m
        invariant
            j <= m + 1,
            m == b.len(),
            a.len() + b.len() < usize::MAX,
            prev@.len() == j,
            forall|k: int| 0 <= k < j ==> prev@[k] == edit_distance(a@.take(0), b@.take(k)),
        decreases m + 1 - j,
    {
        proof {
            assert(a@.take(0).len() == 0);
        }
        prev.push(j);
        j += 1;
    }
    let mut i: usize = 0;
    while i < a.len()
        invariant
            i <= a.len(),
            m == b.len(),
            a.len() + b.len() < usize::MAX,
            prev@.len() == m + 1,
            forall|k: int| 0 <= k <= m ==> prev@[k] == edit_distance(a@.take(i as int), b@.take(k)),
        decreases a.len() - i,
    {
        let ghost ai = a@.take(i as int);
        let ghost ai1 = a@.take(i + 1);
        assert(ai1.drop_last() == ai);
        assert(ai1.last() == a@[i as int]);
        let mut cur: Vec<usize> = Vec::new();
        cur.push(i + 1);
        assert(b@.take(0).len() == 0);
        let mut k: usize = 1;
        while k <= m
            invariant
                1 <= k <= m + 1,
                m == b.len(),
                i < a.len(),
                a.len() + b.len() < usize::MAX,
                ai == a@.take(i as int),
                ai1 == a@.take(i + 1),
                ai1.drop_last() == ai,
                ai1.last() == a@[i as int],
                prev@.len() == m + 1,
                forall|q: int| 0 <= q <= m ==> prev@[q] == edit_distance(ai, b@.take(q)),
                cur@.len() == k,
                forall|q: int| 0 <= q < k ==> cur@[q] == edit_distance(ai1, b@.take(q)),
            decreases m + 1 - k,
        {
            let ghost bk = b@.take(k as int);
            assert(bk.drop_last() == b@.take(k - 1));
            assert(bk.last() == b@[k - 1]);
            proof {
                lemma_distance_len_gap(ai, bk);
                lemma_distance_len_gap(ai1, b@.take(k - 1));
                lemma_distance_len_gap(ai, b@.take(k - 1));
                assert(edit_distance(ai, bk) <= i + k) by {
                    lemma_distance_upper(ai, bk);
                }
                assert(edit_distance(ai1, b@.take(k - 1)) <= i + k) by {
                    lemma_distance_upper(ai1, b@.take(k - 1));
                }
                assert(edit_distance(ai, b@.take(k - 1)) <= i + k) by {
                    lemma_distance_upper(ai, b@.take(k - 1));
                }
            }
            let cost: usize = if a[i] == b[k - 1] { 0 } else { 1 };
            let v = min3_exec(prev[k] + 1, cur[k - 1] + 1, prev[k - 1] + cost);
            cur.push(v);
            k += 1;
        }
        prev = cur;
        i += 1;
    }
    assert(a@.take(a.len() as int) == a@);
    assert(b@.take(m as int) == b@);
    prev[m]
}


/// Only equal sequences are at distance 0.
pub proof fn lemma_distance_zero(a: Seq<char>, b: Seq<char>)
    requires
        edit_distance(a, b) == 0,
    ensures
        a == b,
    decreases a.len() + b.len(),
{
    if a.len() == 0 {
        assert(b.len() == 0);
        assert(a =~= b);
    } else if b.len() == 0 {
    } else {
        assert(edit_distance(a.drop_last(), b.drop_last()) == 0 && a.last() == b.last());
        lemma_distance_zero(a.drop_last(), b.drop_last());
        assert(a =~= a.drop_last().push(a.last()));
        assert(b =~= b.drop_last().push(b.last()));
    }
}

/// Changing one character moves a sequence by at most 1.
pub proof fn lemma_distance_one_swap(a: Seq<char>, i: int, c: char)
    requires
        0 <= i < a.len(),
    ensures
        edit_distance(a, a.update(i, c)) <= 1,
    decreases a.len(),
{
    let b = a.update(i, c);
    assert(b.drop_last().len() == a.drop_last().len());
    if i == a.len() - 1 {
        assert(b.drop_last() =~= a.drop_last());
        lemma_distance_self(a.drop_last());
    } else {
        assert(b.drop_last() =~= a.drop_last().update(i, c));
        assert(b.last() == a.last());
        lemma_distance_one_swap(a.drop_last(), i, c);
    }
}

/// The distance is at most the sum of the lengths.
pub proof fn lemma_distance_upper(a: Seq<char>, b: Seq<char>)
    ensures
        edit_distance(a, b) <= a.len() + b.len(),
    decreases a.len() + b.len(),
{
    if a.len() > 0 && b.len() > 0 {
        lemma_distance_upper(a.drop_last(), b);
    }
}

} // verus!
