//! Spelling fixes for typed readings: a table of common misspellings,
//! applied to the whole reading or inside a longer one, one-character swaps
//! of kana that are often confused, and romaji keys swapped for a neighbour
//! on the keyboard.

use vstd::prelude::*;
use crate::text::{chars_of, chars_eq, contains_chars, seq_contains_seq, replace_all, replace_chars,
    string_from_chars, vec_from_range};
use crate::fuzzy::{lex_le, lemma_lex_total, lemma_lex_trans, lex_le_exec};
use crate::distance::{edit_distance_chars, lemma_distance_one_swap, lemma_distance_zero};

verus! {

/// Confidence, in thousandths, of a swap from the table of confusable kana.
pub const CONFUSION_CONFIDENCE: u32 = 600;

/// A proposed correction of a reading.
pub struct TypoCandidate {
    /// The corrected reading.
    pub corrected: String,
    /// The reading as typed.
    pub original: String,
    /// Confidence in thousandths: 1000 is certain.
    pub confidence: u32,
}

/// The correction tables.
pub struct TypoCorrector {
    rules: Vec<(Vec<char>, Vec<char>, u32)>,
    adjacent_keys: Vec<(char, Vec<char>)>,
}

/// A rule list as plain values.
pub open spec fn rules_view(v: Seq<(Vec<char>, Vec<char>, u32)>) -> Seq<(Seq<char>, Seq<char>, nat)> {
    v.map_values(|r: (Vec<char>, Vec<char>, u32)| (r.0@, r.1@, r.2 as nat))
}

/// A key table as plain values.
pub open spec fn keys_view(v: Seq<(char, Vec<char>)>) -> Seq<(char, Seq<char>)> {
    v.map_values(|k: (char, Vec<char>)| (k.0, k.1@))
}

/// The correction table: a misspelt reading, its correction and the
/// confidence of the correction in thousandths.
pub open spec fn typo_rules() -> Seq<(Seq<char>, Seq<char>, nat)> {
    seq![
        ("きょお"@, "きょう"@, 900nat),
        ("こんにちわ"@, "こんにちは"@, 950nat),
        ("ありがとお"@, "ありがとう"@, 900nat),
        ("おねがいしｍす"@, "おねがいします"@, 800nat),
        ("おおきい"@, "おおきい"@, 1000nat),
        ("おーきい"@, "おおきい"@, 850nat),
        ("とおい"@, "とおい"@, 1000nat),
        ("とーい"@, "とおい"@, 850nat),
        ("いて"@, "いって"@, 700nat),
        ("もて"@, "もって"@, 700nat),
        ("かて"@, "かって"@, 700nat),
        ("わたしわ"@, "わたしは"@, 950nat),
        ("これわ"@, "これは"@, 950nat),
        ("それわ"@, "それは"@, 950nat),
        ("あれわ"@, "あれは"@, 950nat),
        ("りんごお"@, "りんごを"@, 850nat),
        ("ほんお"@, "ほんを"@, 850nat),
        ("つづく"@, "つづく"@, 1000nat),
        ("つずく"@, "つづく"@, 900nat),
        ("ちぢむ"@, "ちぢむ"@, 1000nat),
        ("ちじむ"@, "ちぢむ"@, 900nat),
    ]
}

/// The keys next to each letter key on a QWERTY keyboard.
pub open spec fn qwerty_neighbours() -> Seq<(char, Seq<char>)> {
    seq![
        ('a', seq!['s', 'q', 'w', 'z']),
        ('s', seq!['a', 'd', 'w', 'e', 'x', 'z']),
        ('d', seq!['s', 'f', 'e', 'r', 'c', 'x']),
        ('f', seq!['d', 'g', 'r', 't', 'v', 'c']),
        ('g', seq!['f', 'h', 't', 'y', 'b', 'v']),
        ('h', seq!['g', 'j', 'y', 'u', 'n', 'b']),
        ('j', seq!['h', 'k', 'u', 'i', 'm', 'n']),
        ('k', seq!['j', 'l', 'i', 'o', 'm']),
        ('l', seq!['k', 'o', 'p']),
        ('q', seq!['w', 'a']),
        ('w', seq!['q', 'e', 'a', 's']),
        ('e', seq!['w', 'r', 's', 'd']),
        ('r', seq!['e', 't', 'd', 'f']),
        ('t', seq!['r', 'y', 'f', 'g']),
        ('y', seq!['t', 'u', 'g', 'h']),
        ('u', seq!['y', 'i', 'h', 'j']),
        ('i', seq!['u', 'o', 'j', 'k']),
        ('o', seq!['i', 'p', 'k', 'l']),
        ('p', seq!['o', 'l']),
        ('z', seq!['a', 's', 'x']),
        ('x', seq!['z', 's', 'd', 'c']),
        ('c', seq!['x', 'd', 'f', 'v']),
        ('v', seq!['c', 'f', 'g', 'b']),
        ('b', seq!['v', 'g', 'h', 'n']),
        ('n', seq!['b', 'h', 'j', 'm']),
        ('m', seq!['n', 'j', 'k']),
    ]
}


/// Corrections as plain values: the corrected reading and its confidence.
pub open spec fn pairs_view(v: Seq<(Vec<char>, u32)>) -> Seq<(Seq<char>, nat)> {
    v.map_values(|p: (Vec<char>, u32)| (p.0@, p.1 as nat))
}

/// What the table gives for exactly `input`: the correction and confidence
/// of the first rule whose pattern it is.
pub open spec fn rule_for(rules: Seq<(Seq<char>, Seq<char>, nat)>, input: Seq<char>) -> Option<(Seq<char>, nat)>
    decreases rules.len(),
{
    if rules.len() == 0 {
        None
    } else if rules[0].0 == input {
        Some((rules[0].1, rules[0].2))
    } else {
        rule_for(rules.drop_first(), input)
    }
}

/// The correction of the whole reading by the table, unless the table
/// holds the reading as already correct.
pub open spec fn whole_fix(input: Seq<char>) -> Seq<(Seq<char>, nat)> {
    match rule_for(typo_rules(), input) {
        Some(f) => if f.0 != input {
            seq![f]
        } else {
            Seq::empty()
        },
        None => Seq::empty(),
    }
}

/// Whether some correction in `cs` gives `s`.
pub open spec fn has_corrected(cs: Seq<(Seq<char>, nat)>, s: Seq<char>) -> bool {
    exists|j: int| 0 <= j < cs.len() && (#[trigger] cs[j]).0 == s
}

/// `cs` with the correction that one rule of three characters or more makes
/// inside the reading (every occurrence replaced, confidence nine tenths of
/// the rule's), unless it changes nothing or is already in `cs`.
pub open spec fn with_inner_fix(
    cs: Seq<(Seq<char>, nat)>,
    rule: (Seq<char>, Seq<char>, nat),
    input: Seq<char>,
) -> Seq<(Seq<char>, nat)> {
    if rule.0.len() >= 3 && seq_contains_seq(input, rule.0) && rule.0 != input {
        let fixed = replace_all(input, rule.0, rule.1);
        if fixed != input && !has_corrected(cs, fixed) {
            cs.push((fixed, rule.2 * 9 / 10))
        } else {
            cs
        }
    } else {
        cs
    }
}

/// `cs` with the corrections inside the reading by each of `rules` in turn.
pub open spec fn inner_fixes(
    cs: Seq<(Seq<char>, nat)>,
    rules: Seq<(Seq<char>, Seq<char>, nat)>,
    input: Seq<char>,
) -> Seq<(Seq<char>, nat)>
    decreases rules.len(),
{
    if rules.len() == 0 {
        cs
    } else {
        with_inner_fix(inner_fixes(cs, rules.drop_last(), input), rules.last(), input)
    }
}

/// Kana that are often typed for another: (typed, meant).
pub open spec fn kana_confusions() -> Seq<(char, char)> {
    seq![('お', 'う'), ('わ', 'は'), ('お', 'を'), ('ず', 'づ'), ('じ', 'ぢ'), ('え', 'へ'), ('ー', 'う')]
}

/// The readings made by swapping the character at `i` by each pair of
/// `pairs` whose typed kana it is, in the order of `pairs`.
pub open spec fn swaps_at(input: Seq<char>, i: int, pairs: Seq<(char, char)>) -> Seq<Seq<char>>
    decreases pairs.len(),
{
    if pairs.len() == 0 {
        Seq::empty()
    } else if input[i] == pairs.last().0 {
        swaps_at(input, i, pairs.drop_last()).push(input.update(i, pairs.last().1))
    } else {
        swaps_at(input, i, pairs.drop_last())
    }
}

/// The confusable-kana swaps at the first `n` positions.
pub open spec fn swaps_upto(input: Seq<char>, n: nat) -> Seq<Seq<char>>
    decreases n,
{
    if n == 0 {
        Seq::empty()
    } else {
        swaps_upto(input, (n - 1) as nat) + swaps_at(input, n - 1, kana_confusions())
    }
}

/// `cs` with each reading of `vs` that it does not hold yet, at the
/// confidence of a confusable-kana swap.
pub open spec fn with_swaps(cs: Seq<(Seq<char>, nat)>, vs: Seq<Seq<char>>) -> Seq<(Seq<char>, nat)>
    decreases vs.len(),
{
    if vs.len() == 0 {
        cs
    } else {
        let prev = with_swaps(cs, vs.drop_last());
        if has_corrected(prev, vs.last()) {
            prev
        } else {
            prev.push((vs.last(), CONFUSION_CONFIDENCE as nat))
        }
    }
}

/// The corrections of a reading before ordering: the whole-reading fix,
/// then the fixes inside it, then the confusable-kana swaps.
pub open spec fn raw_corrections(input: Seq<char>) -> Seq<(Seq<char>, nat)> {
    with_swaps(inner_fixes(whole_fix(input), typo_rules(), input), swaps_upto(input, input.len()))
}

/// `s` with `x` placed after every element of confidence at least its own.
pub open spec fn insert_by_confidence(s: Seq<(Seq<char>, nat)>, x: (Seq<char>, nat)) -> Seq<(Seq<char>, nat)>
    decreases s.len(),
{
    if s.len() == 0 {
        seq![x]
    } else if s.last().1 >= x.1 {
        s.push(x)
    } else {
        insert_by_confidence(s.drop_last(), x).push(s.last())
    }
}

/// `s` ordered by confidence, highest first, keeping the order of equal
/// confidences (a stable sort).
pub open spec fn by_confidence(s: Seq<(Seq<char>, nat)>) -> Seq<(Seq<char>, nat)>
    decreases s.len(),
{
    if s.len() == 0 {
        s
    } else {
        insert_by_confidence(by_confidence(s.drop_last()), s.last())
    }
}

/// The corrections proposed for a reading, most confident first.
pub open spec fn corrections(input: Seq<char>) -> Seq<(Seq<char>, nat)> {
    by_confidence(raw_corrections(input))
}

/// Highest confidence first.
pub open spec fn sorted_by_confidence(s: Seq<(Seq<char>, nat)>) -> bool {
    forall|a: int, b: int| 0 <= a < b < s.len() ==> (#[trigger] s[a]).1 >= (#[trigger] s[b]).1
}

proof fn lemma_insert_floor(s: Seq<(Seq<char>, nat)>, x: (Seq<char>, nat), b: nat)
    requires
        forall|m: int| 0 <= m < s.len() ==> (#[trigger] s[m]).1 >= b,
        x.1 >= b,
    ensures
        insert_by_confidence(s, x).len() == s.len() + 1,
        forall|k: int| 0 <= k < s.len() + 1 ==> (#[trigger] insert_by_confidence(s, x)[k]).1 >= b,
    decreases s.len(),
{
    if s.len() > 0 && s.last().1 < x.1 {
        lemma_insert_floor(s.drop_last(), x, b);
        let t = insert_by_confidence(s.drop_last(), x);
        assert forall|k: int| 0 <= k < s.len() + 1 implies (#[trigger] insert_by_confidence(s, x)[k]).1 >= b by {
            if k < s.len() {
                assert(insert_by_confidence(s, x)[k] == t[k]);
            }
        }
    }
}

proof fn lemma_insert_sorted(s: Seq<(Seq<char>, nat)>, x: (Seq<char>, nat))
    requires
        sorted_by_confidence(s),
    ensures
        sorted_by_confidence(insert_by_confidence(s, x)),
    decreases s.len(),
{
    if s.len() > 0 {
        let l = s.last();
        if l.1 >= x.1 {
            let t = s.push(x);
            assert forall|a: int, b: int| 0 <= a < b < t.len() implies (#[trigger] t[a]).1 >= (#[trigger] t[b]).1 by {
                if b == s.len() && a < s.len() - 1 {
                    assert(s[a].1 >= s[s.len() - 1].1);
                }
            }
        } else {
            let d = s.drop_last();
            assert(sorted_by_confidence(d)) by {
                assert forall|a: int, b: int| 0 <= a < b < d.len() implies (#[trigger] d[a]).1 >= (#[trigger] d[b]).1 by {
                    assert(s[a].1 >= s[b].1);
                }
            }
            lemma_insert_sorted(d, x);
            assert forall|m: int| 0 <= m < d.len() implies (#[trigger] d[m]).1 >= l.1 by {
                assert(s[m].1 >= s[s.len() - 1].1);
            }
            lemma_insert_floor(d, x, l.1);
        }
    }
}

proof fn lemma_insert_multiset(s: Seq<(Seq<char>, nat)>, x: (Seq<char>, nat))
    ensures
        insert_by_confidence(s, x).to_multiset() == s.to_multiset().insert(x),
    decreases s.len(),
{
    broadcast use vstd::seq_lib::group_to_multiset_ensures;

    if s.len() == 0 {
        assert(seq![x] =~= s.push(x));
    } else if s.last().1 < x.1 {
        lemma_insert_multiset(s.drop_last(), x);
        assert(s =~= s.drop_last().push(s.last()));
        assert(insert_by_confidence(s, x).to_multiset() =~= s.to_multiset().insert(x));
    }
}

/// Ordering by confidence puts the highest confidence first and keeps
/// every element, each as many times as it came.
pub proof fn law_by_confidence(s: Seq<(Seq<char>, nat)>)
    ensures
        sorted_by_confidence(by_confidence(s)),
        by_confidence(s).to_multiset() == s.to_multiset(),
    decreases s.len(),
{
    broadcast use vstd::seq_lib::group_to_multiset_ensures;

    if s.len() > 0 {
        law_by_confidence(s.drop_last());
        lemma_insert_sorted(by_confidence(s.drop_last()), s.last());
        lemma_insert_multiset(by_confidence(s.drop_last()), s.last());
        assert(s =~= s.drop_last().push(s.last()));
    } else {
        assert(s.to_multiset() =~= vstd::multiset::Multiset::empty());
    }
}

proof fn lemma_swaps_at_change(input: Seq<char>, i: int, pairs: Seq<(char, char)>)
    requires
        0 <= i < input.len(),
        forall|k: int| 0 <= k < pairs.len() ==> (#[trigger] pairs[k]).0 != pairs[k].1,
    ensures
        forall|m: int| 0 <= m < swaps_at(input, i, pairs).len() ==> #[trigger] swaps_at(input, i, pairs)[m] != input,
    decreases pairs.len(),
{
    if pairs.len() > 0 {
        let d = pairs.drop_last();
        assert forall|k: int| 0 <= k < d.len() implies (#[trigger] d[k]).0 != d[k].1 by {
            assert(d[k] == pairs[k]);
        }
        lemma_swaps_at_change(input, i, d);
        let prev = swaps_at(input, i, d);
        let l = pairs[pairs.len() - 1];
        if input[i] == l.0 {
            let v = input.update(i, l.1);
            assert(v[i] != input[i]);
            assert forall|m: int| 0 <= m < prev.push(v).len() implies #[trigger] prev.push(v)[m] != input by {
                if m < prev.len() {
                    assert(prev.push(v)[m] == prev[m]);
                }
            }
        }
    }
}

proof fn lemma_swaps_upto_change(input: Seq<char>, n: nat)
    requires
        n <= input.len(),
    ensures
        forall|m: int| 0 <= m < swaps_upto(input, n).len() ==> #[trigger] swaps_upto(input, n)[m] != input,
    decreases n,
{
    if n > 0 {
        let k = kana_confusions();
        assert forall|q: int| 0 <= q < k.len() implies (#[trigger] k[q]).0 != k[q].1 by {
            assert(k[0].0 != k[0].1);
            assert(k[1].0 != k[1].1);
            assert(k[2].0 != k[2].1);
            assert(k[3].0 != k[3].1);
            assert(k[4].0 != k[4].1);
            assert(k[5].0 != k[5].1);
            assert(k[6].0 != k[6].1);
        }
        lemma_swaps_upto_change(input, (n - 1) as nat);
        lemma_swaps_at_change(input, n - 1, k);
        let a = swaps_upto(input, (n - 1) as nat);
        let b = swaps_at(input, n - 1, k);
        assert forall|m: int| 0 <= m < (a + b).len() implies #[trigger] (a + b)[m] != input by {
            if m < a.len() {
                assert((a + b)[m] == a[m]);
            } else {
                assert((a + b)[m] == b[m - a.len()]);
            }
        }
    }
}

/// No element of `cs` corrects `input` to itself.
pub open spec fn all_change(cs: Seq<(Seq<char>, nat)>, input: Seq<char>) -> bool {
    forall|m: int| 0 <= m < cs.len() ==> (#[trigger] cs[m]).0 != input
}

proof fn lemma_with_swaps_change(cs: Seq<(Seq<char>, nat)>, vs: Seq<Seq<char>>, input: Seq<char>)
    requires
        all_change(cs, input),
        forall|m: int| 0 <= m < vs.len() ==> #[trigger] vs[m] != input,
    ensures
        all_change(with_swaps(cs, vs), input),
    decreases vs.len(),
{
    if vs.len() > 0 {
        let d = vs.drop_last();
        assert forall|m: int| 0 <= m < d.len() implies #[trigger] d[m] != input by {
            assert(d[m] == vs[m]);
        }
        lemma_with_swaps_change(cs, d, input);
        assert(vs.last() == vs[vs.len() - 1]);
    }
}

proof fn lemma_inner_fixes_change(
    cs: Seq<(Seq<char>, nat)>,
    rules: Seq<(Seq<char>, Seq<char>, nat)>,
    input: Seq<char>,
)
    requires
        all_change(cs, input),
    ensures
        all_change(inner_fixes(cs, rules, input), input),
    decreases rules.len(),
{
    if rules.len() > 0 {
        lemma_inner_fixes_change(cs, rules.drop_last(), input);
    }
}

/// The corrections of a reading come most confident first, are exactly the
/// corrections found before ordering, and none gives the reading back
/// unchanged.
pub proof fn law_corrections(input: Seq<char>)
    ensures
        sorted_by_confidence(corrections(input)),
        corrections(input).to_multiset() == raw_corrections(input).to_multiset(),
        all_change(corrections(input), input),
{
    broadcast use vstd::seq_lib::group_to_multiset_ensures;

    law_by_confidence(raw_corrections(input));
    lemma_inner_fixes_change(whole_fix(input), typo_rules(), input);
    lemma_swaps_upto_change(input, input.len());
    lemma_with_swaps_change(inner_fixes(whole_fix(input), typo_rules(), input), swaps_upto(input, input.len()), input);
    let c = corrections(input);
    let raw = raw_corrections(input);
    assert forall|m: int| 0 <= m < c.len() implies (#[trigger] c[m]).0 != input by {
        assert(c.contains(c[m]));
        assert(c.to_multiset().count(c[m]) > 0);
        assert(raw.contains(c[m]));
        let q = choose|q: int| 0 <= q < raw.len() && raw[q] == c[m];
        assert(raw[q].0 != input);
    }
}

proof fn lemma_insert_at(s: Seq<(Seq<char>, nat)>, x: (Seq<char>, nat), j: int)
    requires
        0 <= j <= s.len(),
        j > 0 ==> s[j - 1].1 >= x.1,
        forall|m: int| j <= m < s.len() ==> (#[trigger] s[m]).1 < x.1,
    ensures
        insert_by_confidence(s, x) == s.insert(j, x),
    decreases s.len(),
{
    if s.len() == 0 {
        assert(s.insert(j, x) =~= seq![x]);
    } else if j == s.len() {
        assert(s.insert(j, x) =~= s.push(x));
    } else {
        assert(s[s.len() - 1].1 < x.1);
        lemma_insert_at(s.drop_last(), x, j);
        assert(s.drop_last().insert(j, x).push(s.last()) =~= s.insert(j, x));
    }
}

fn confusion_pairs() -> (v: Vec<(char, char)>)
    ensures
        v@ == kana_confusions(),
{
    vec![('お', 'う'), ('わ', 'は'), ('お', 'を'), ('ず', 'づ'), ('じ', 'ぢ'), ('え', 'へ'), ('ー', 'う')]
}

fn has_corrected_exec(cs: &Vec<(Vec<char>, u32)>, s: &[char]) -> (r: bool)
    ensures
        r == has_corrected(pairs_view(cs@), s@),
{
    let mut k: usize = 0;
    while k < cs.len()
        invariant
            k <= cs.len(),
            forall|j: int| 0 <= j < k ==> (#[trigger] pairs_view(cs@)[j]).0 != s@,
        decreases cs.len() - k,
    {
        if chars_eq(cs[k].0.as_slice(), s) {
            assert(pairs_view(cs@)[k as int].0 == s@);
            return true;
        }
        k += 1;
    }
    false
}

/// The confusable-kana swaps of `cs`, added to `out` as `with_swaps` says.
fn add_swaps(cs: &[char], out: &mut Vec<(Vec<char>, u32)>)
    ensures
        pairs_view(final(out)@) == with_swaps(pairs_view(old(out)@), swaps_upto(cs@, cs@.len())),
{
    let pairs = confusion_pairs();
    let ghost base = pairs_view(out@);
    let mut i: usize = 0;
    while i < cs.len()
        invariant
            i <= cs.len(),
            pairs@ == kana_confusions(),
            pairs_view(out@) == with_swaps(base, swaps_upto(cs@, i as nat)),
        decreases cs.len() - i,
    {
        let mut j: usize = 0;
        assert(kana_confusions().take(0) =~= Seq::<(char, char)>::empty());
        assert(swaps_upto(cs@, i as nat) + Seq::<Seq<char>>::empty() =~= swaps_upto(cs@, i as nat));
        while j < pairs.len()
            invariant
                i < cs.len(),
                j <= pairs.len(),
                pairs@ == kana_confusions(),
                pairs_view(out@) == with_swaps(
                    base,
                    swaps_upto(cs@, i as nat) + swaps_at(cs@, i as int, kana_confusions().take(j as int)),
                ),
            decreases pairs.len() - j,
        {
            let ghost k = kana_confusions();
            let ghost before = swaps_upto(cs@, i as nat) + swaps_at(cs@, i as int, k.take(j as int));
            assert(k.take(j + 1).drop_last() =~= k.take(j as int));
            assert(k.take(j + 1).last() == k[j as int]);
            if cs[i] == pairs[j].0 {
                let mut v = vec_from_range(cs, 0, cs.len());
                v.set(i, pairs[j].1);
                assert(v@ =~= cs@.update(i as int, k[j as int].1));
                let ghost after = swaps_upto(cs@, i as nat) + swaps_at(cs@, i as int, k.take(j + 1));
                assert(after =~= before.push(v@));
                assert(after.drop_last() =~= before);
                if !has_corrected_exec(out, v.as_slice()) {
                    out.push((v, CONFUSION_CONFIDENCE));
                    assert(pairs_view(out@) =~= with_swaps(base, before).push((v@, CONFUSION_CONFIDENCE as nat)));
                }
            } else {
                assert(swaps_at(cs@, i as int, k.take(j + 1)) == swaps_at(cs@, i as int, k.take(j as int)));
            }
            j += 1;
        }
        assert(kana_confusions().take(pairs.len() as int) =~= kana_confusions());
        i += 1;
    }
}

/// `v` ordered as `by_confidence` says.
fn sort_by_confidence(v: &Vec<(Vec<char>, u32)>) -> (r: Vec<(Vec<char>, u32)>)
    ensures
        pairs_view(r@) == by_confidence(pairs_view(v@)),
{
    let mut r: Vec<(Vec<char>, u32)> = Vec::new();
    let mut k: usize = 0;
    assert(pairs_view(v@).take(0) =~= Seq::<(Seq<char>, nat)>::empty());
    assert(pairs_view(r@) =~= Seq::<(Seq<char>, nat)>::empty());
    while k < v.len()
        invariant
            k <= v.len(),
            pairs_view(r@) == by_confidence(pairs_view(v@).take(k as int)),
        decreases v.len() - k,
    {
        let c = v[k].1;
        let mut j = r.len();
        while j > 0 && r[j - 1].1 < c
            invariant
                j <= r.len(),
                forall|m: int| j <= m < r.len() ==> (#[trigger] r@[m]).1 < c,
            decreases j,
        {
            j -= 1;
        }
        let item = (vec_from_range(v[k].0.as_slice(), 0, v[k].0.len()), c);
        let ghost old_r = pairs_view(r@);
        let ghost x = (v@[k as int].0@, c as nat);
        proof {
            assert(v[k as int].0@.subrange(0, v[k as int].0@.len() as int) =~= v[k as int].0@);
            assert forall|m: int| j <= m < old_r.len() implies (#[trigger] old_r[m]).1 < x.1 by {
                assert(r@[m].1 < c);
            }
            lemma_insert_at(old_r, x, j as int);
            assert(pairs_view(v@).take(k + 1).drop_last() =~= pairs_view(v@).take(k as int));
            assert(pairs_view(v@).take(k + 1).last() == x);
        }
        r.insert(j, item);
        assert(pairs_view(r@) =~= old_r.insert(j as int, x));
        k += 1;
    }
    assert(pairs_view(v@).take(v.len() as int) =~= pairs_view(v@));
    r
}


/// The keys next to `c` in `keys`: those of its first entry, none if it has none.
pub open spec fn neighbours_of(keys: Seq<(char, Seq<char>)>, c: char) -> Seq<char>
    decreases keys.len(),
{
    if keys.len() == 0 {
        Seq::empty()
    } else if keys[0].0 == c {
        keys[0].1
    } else {
        neighbours_of(keys.drop_first(), c)
    }
}

/// `v` is `romaji` with the character at `i` changed to one of `ns`, and
/// differs from it.
pub open spec fn swap_among(romaji: Seq<char>, v: Seq<char>, i: int, ns: Seq<char>) -> bool {
    &&& 0 <= i < romaji.len()
    &&& v.len() == romaji.len()
    &&& v == romaji.update(i, v[i])
    &&& ns.contains(v[i])
    &&& v != romaji
}

/// `v` is `romaji` with the key at `i` swapped for one next to it.
pub open spec fn is_adjacent_swap(romaji: Seq<char>, v: Seq<char>, i: int) -> bool {
    0 <= i < romaji.len() && swap_among(romaji, v, i, neighbours_of(qwerty_neighbours(), romaji[i]))
}

/// `v` is `romaji` with one key swapped for one next to it.
pub open spec fn is_adjacent_variant(romaji: Seq<char>, v: Seq<char>) -> bool {
    exists|i: int| #[trigger] is_adjacent_swap(romaji, v, i)
}

/// Strictly increasing in code-point order.
pub open spec fn strictly_sorted(s: Seq<Seq<char>>) -> bool {
    forall|a: int, b: int| 0 <= a < b < s.len() ==> lex_le(#[trigger] s[a], #[trigger] s[b]) && s[a] != s[b]
}

/// Character vectors as sequences.
pub open spec fn seqs_view(v: Seq<Vec<char>>) -> Seq<Seq<char>> {
    v.map_values(|x: Vec<char>| x@)
}

proof fn lemma_lt_le(x: Seq<char>, y: Seq<char>, z: Seq<char>)
    requires
        lex_le(x, y),
        x != y,
        lex_le(y, z),
    ensures
        lex_le(x, z),
        x != z,
{
    lemma_lex_trans(x, y, z);
    if x == z {
        lemma_lex_total(x, y);
    }
}

proof fn lemma_swap_step(cs: Seq<char>, v: Seq<char>, i: int, ns: Seq<char>, j: int)
    requires
        0 <= i < cs.len(),
        0 <= j < ns.len(),
    ensures
        swap_among(cs, v, i, ns.take(j + 1)) <==> (swap_among(cs, v, i, ns.take(j)) || (v == cs.update(i, ns[j])
            && v != cs)),
{
    if swap_among(cs, v, i, ns.take(j + 1)) && !swap_among(cs, v, i, ns.take(j)) {
        let q = choose|q: int| 0 <= q < j + 1 && #[trigger] ns.take(j + 1)[q] == v[i];
        if q < j {
            assert(ns.take(j)[q] == v[i]);
        }
    }
    if swap_among(cs, v, i, ns.take(j)) {
        let q = choose|q: int| 0 <= q < j && #[trigger] ns.take(j)[q] == v[i];
        assert(ns.take(j + 1)[q] == v[i]);
    }
    if v == cs.update(i, ns[j]) && v != cs {
        assert(v[i] == ns[j]);
        assert(ns.take(j + 1)[j] == ns[j]);
    }
}

/// Puts `v` in its place in the strictly increasing `out`, unless it is there.
fn insert_sorted_unique(out: &mut Vec<Vec<char>>, v: Vec<char>)
    requires
        strictly_sorted(seqs_view(old(out)@)),
    ensures
        strictly_sorted(seqs_view(final(out)@)),
        forall|x: Seq<char>| seqs_view(final(out)@).contains(x) <==> (seqs_view(old(out)@).contains(x) || x == v@),
{
    let ghost old_s = seqs_view(out@);
    let mut j: usize = 0;
    while j < out.len() && !lex_le_exec(v.as_slice(), out[j].as_slice())
        invariant
            j <= out.len(),
            seqs_view(out@) == old_s,
            forall|m: int| 0 <= m < j ==> lex_le(#[trigger] old_s[m], v@) && old_s[m] != v@,
        decreases out.len() - j,
    {
        proof {
            lemma_lex_total(v@, out@[j as int]@);
            assert(old_s[j as int] == out@[j as int]@);
        }
        j += 1;
    }
    if j < out.len() && chars_eq(out[j].as_slice(), v.as_slice()) {
        assert(old_s[j as int] == v@);
        return;
    }
    proof {
        if j < out.len() {
            assert(old_s[j as int] == out@[j as int]@);
            assert(lex_le(v@, old_s[j as int]) && v@ != old_s[j as int]);
        }
    }
    let ghost vv = v@;
    out.insert(j, v);
    assert(seqs_view(out@) =~= old_s.insert(j as int, vv));
    proof {
        let n = seqs_view(out@);
        assert forall|a: int, b: int| 0 <= a < b < n.len() implies lex_le(#[trigger] n[a], #[trigger] n[b]) && n[a] != n[b] by {
            if b < j {
                assert(n[a] == old_s[a] && n[b] == old_s[b]);
            } else if b == j {
                assert(n[a] == old_s[a]);
            } else if a > j {
                assert(n[a] == old_s[a - 1] && n[b] == old_s[b - 1]);
            } else if a == j {
                assert(n[b] == old_s[b - 1]);
                if b - 1 > j {
                    assert(lex_le(old_s[j as int], old_s[b - 1]));
                }
                lemma_lex_total(old_s[j as int], old_s[j as int]);
                lemma_lt_le(vv, old_s[j as int], old_s[b - 1]);
            } else {
                assert(n[a] == old_s[a] && n[b] == old_s[b - 1]);
                if b - 1 > j {
                    assert(lex_le(old_s[j as int], old_s[b - 1]));
                } else {
                    lemma_lex_total(old_s[j as int], old_s[j as int]);
                }
                lemma_lt_le(vv, old_s[j as int], old_s[b - 1]);
                lemma_lt_le(old_s[a], vv, old_s[b - 1]);
            }
        }
        assert forall|x: Seq<char>| n.contains(x) <==> (old_s.contains(x) || x == vv) by {
            if n.contains(x) {
                let k = choose|k: int| 0 <= k < n.len() && n[k] == x;
                if k < j {
                    assert(old_s[k] == x);
                } else if k > j {
                    assert(old_s[k - 1] == x);
                }
            }
            if old_s.contains(x) {
                let k = choose|k: int| 0 <= k < old_s.len() && old_s[k] == x;
                if k < j {
                    assert(n[k] == x);
                } else {
                    assert(n[k + 1] == x);
                }
            }
            if x == vv {
                assert(n[j as int] == x);
            }
        }
    }
}


fn add_rule(v: &mut Vec<(Vec<char>, Vec<char>, u32)>, pattern: &str, corrected: &str, confidence: u32)
    ensures
        rules_view(final(v)@) == rules_view(old(v)@).push((pattern@, corrected@, confidence as nat)),
{
    let p = chars_of(pattern);
    let c = chars_of(corrected);
    v.push((p, c, confidence));
    assert(rules_view(v@) =~= rules_view(old(v)@).push((pattern@, corrected@, confidence as nat)));
}

fn add_key(v: &mut Vec<(char, Vec<char>)>, key: char, neighbours: Vec<char>)
    ensures
        keys_view(final(v)@) == keys_view(old(v)@).push((key, neighbours@)),
{
    v.push((key, neighbours));
    assert(keys_view(v@) =~= keys_view(old(v)@).push((key, neighbours@)));
}

fn rule_table() -> (v: Vec<(Vec<char>, Vec<char>, u32)>)
    ensures
        rules_view(v@) == typo_rules(),
{
    let mut v: Vec<(Vec<char>, Vec<char>, u32)> = Vec::new();
    add_rule(&mut v, "きょお", "きょう", 900);
    add_rule(&mut v, "こんにちわ", "こんにちは", 950);
    add_rule(&mut v, "ありがとお", "ありがとう", 900);
    add_rule(&mut v, "おねがいしｍす", "おねがいします", 800);
    add_rule(&mut v, "おおきい", "おおきい", 1000);
    add_rule(&mut v, "おーきい", "おおきい", 850);
    add_rule(&mut v, "とおい", "とおい", 1000);
    add_rule(&mut v, "とーい", "とおい", 850);
    add_rule(&mut v, "いて", "いって", 700);
    add_rule(&mut v, "もて", "もって", 700);
    add_rule(&mut v, "かて", "かって", 700);
    add_rule(&mut v, "わたしわ", "わたしは", 950);
    add_rule(&mut v, "これわ", "これは", 950);
    add_rule(&mut v, "それわ", "それは", 950);
    add_rule(&mut v, "あれわ", "あれは", 950);
    add_rule(&mut v, "りんごお", "りんごを", 850);
    add_rule(&mut v, "ほんお", "ほんを", 850);
    add_rule(&mut v, "つづく", "つづく", 1000);
    add_rule(&mut v, "つずく", "つづく", 900);
    add_rule(&mut v, "ちぢむ", "ちぢむ", 1000);
    add_rule(&mut v, "ちじむ", "ちぢむ", 900);
    assert(rules_view(v@) =~= typo_rules());
    v
}

fn key_table() -> (v: Vec<(char, Vec<char>)>)
    ensures
        keys_view(v@) == qwerty_neighbours(),
{
    let mut v: Vec<(char, Vec<char>)> = Vec::new();
    add_key(&mut v, 'a', vec!['s', 'q', 'w', 'z']);
    add_key(&mut v, 's', vec!['a', 'd', 'w', 'e', 'x', 'z']);
    add_key(&mut v, 'd', vec!['s', 'f', 'e', 'r', 'c', 'x']);
    add_key(&mut v, 'f', vec!['d', 'g', 'r', 't', 'v', 'c']);
    add_key(&mut v, 'g', vec!['f', 'h', 't', 'y', 'b', 'v']);
    add_key(&mut v, 'h', vec!['g', 'j', 'y', 'u', 'n', 'b']);
    add_key(&mut v, 'j', vec!['h', 'k', 'u', 'i', 'm', 'n']);
    add_key(&mut v, 'k', vec!['j', 'l', 'i', 'o', 'm']);
    add_key(&mut v, 'l', vec!['k', 'o', 'p']);
    add_key(&mut v, 'q', vec!['w', 'a']);
    add_key(&mut v, 'w', vec!['q', 'e', 'a', 's']);
    add_key(&mut v, 'e', vec!['w', 'r', 's', 'd']);
    add_key(&mut v, 'r', vec!['e', 't', 'd', 'f']);
    add_key(&mut v, 't', vec!['r', 'y', 'f', 'g']);
    add_key(&mut v, 'y', vec!['t', 'u', 'g', 'h']);
    add_key(&mut v, 'u', vec!['y', 'i', 'h', 'j']);
    add_key(&mut v, 'i', vec!['u', 'o', 'j', 'k']);
    add_key(&mut v, 'o', vec!['i', 'p', 'k', 'l']);
    add_key(&mut v, 'p', vec!['o', 'l']);
    add_key(&mut v, 'z', vec!['a', 's', 'x']);
    add_key(&mut v, 'x', vec!['z', 's', 'd', 'c']);
    add_key(&mut v, 'c', vec!['x', 'd', 'f', 'v']);
    add_key(&mut v, 'v', vec!['c', 'f', 'g', 'b']);
    add_key(&mut v, 'b', vec!['v', 'g', 'h', 'n']);
    add_key(&mut v, 'n', vec!['b', 'h', 'j', 'm']);
    add_key(&mut v, 'm', vec!['n', 'j', 'k']);
    assert(keys_view(v@) =~= qwerty_neighbours());
    v
}

impl TypoCorrector {
    #[verifier::type_invariant]
    closed spec fn tables_hold(self) -> bool {
        &&& rules_view(self.rules@) == typo_rules()
        &&& keys_view(self.adjacent_keys@) == qwerty_neighbours()
    }

    /// The correction rules the corrector holds: (pattern, correction,
    /// confidence in thousandths), in order.
    pub closed spec fn rule_list(self) -> Seq<(Seq<char>, Seq<char>, nat)> {
        rules_view(self.rules@)
    }

    /// The keyboard neighbours the corrector holds, key by key.
    pub closed spec fn key_list(self) -> Seq<(char, Seq<char>)> {
        keys_view(self.adjacent_keys@)
    }

    /// Builds the corrector with its tables.
    pub fn new() -> (r: Self)
        ensures
            r.rule_list() == typo_rules(),
            r.key_list() == qwerty_neighbours(),
    {
        TypoCorrector { rules: rule_table(), adjacent_keys: key_table() }
    }


    /// Index of the first rule whose pattern is the whole of `cs`.
    fn find_rule(&self, cs: &[char]) -> (r: Option<usize>)
        ensures
            r is None ==> rule_for(typo_rules(), cs@) is None,
            r matches Some(k) ==> k < self.rules@.len() && rule_for(typo_rules(), cs@) == Some(
                (self.rules@[k as int].1@, self.rules@[k as int].2 as nat),
            ),
    {
        proof {
            use_type_invariant(self);
        }
        let ghost rs = typo_rules();
        let mut k: usize = 0;
        assert(rs.skip(0) =~= rs);
        while k < self.rules.len()
            invariant
                k <= self.rules@.len(),
                rs == typo_rules(),
                rules_view(self.rules@) == rs,
                rule_for(rs, cs@) == rule_for(rs.skip(k as int), cs@),
            decreases self.rules.len() - k,
        {
            assert(rs.skip(k as int)[0] == rs[k as int]);
            assert(rs.skip(k as int).drop_first() =~= rs.skip(k + 1));
            assert(rs[k as int] == (self.rules@[k as int].0@, self.rules@[k as int].1@, self.rules@[k as int].2 as nat));
            if chars_eq(self.rules[k].0.as_slice(), cs) {
                assert(rs.skip(k as int)[0].0 == cs@);
                return Some(k);
            }
            k += 1;
        }
        assert(rs.skip(k as int).len() == 0);
        None
    }

    /// The table's corrections inside `cs`, added to `out` as `inner_fixes` says.
    fn add_inner_fixes(&self, cs: &[char], out: &mut Vec<(Vec<char>, u32)>)
        ensures
            pairs_view(final(out)@) == inner_fixes(pairs_view(old(out)@), typo_rules(), cs@),
    {
        proof {
            use_type_invariant(self);
        }
        let ghost rs = typo_rules();
        let ghost base = pairs_view(out@);
        let mut k: usize = 0;
        assert(rs.take(0) =~= Seq::<(Seq<char>, Seq<char>, nat)>::empty());
        while k < self.rules.len()
            invariant
                k <= self.rules@.len(),
                rs == typo_rules(),
                rules_view(self.rules@) == rs,
                pairs_view(out@) == inner_fixes(base, rs.take(k as int), cs@),
            decreases self.rules.len() - k,
        {
            let ghost prev = pairs_view(out@);
            let rule = &self.rules[k];
            assert(rs.take(k + 1).drop_last() =~= rs.take(k as int));
            assert(rs.take(k + 1).last() == rs[k as int]);
            assert(rs[k as int] == (rule.0@, rule.1@, rule.2 as nat));
            if rule.0.len() >= 3 && contains_chars(cs, rule.0.as_slice()) && !chars_eq(rule.0.as_slice(), cs) {
                let fixed = replace_chars(cs, rule.0.as_slice(), rule.1.as_slice());
                if !chars_eq(fixed.as_slice(), cs) && !has_corrected_exec(out, fixed.as_slice()) {
                    let conf: u64 = (rule.2 as u64) * 9 / 10;
                    assert(conf <= rule.2);
                    out.push((fixed, conf as u32));
                    assert(pairs_view(out@) =~= prev.push((fixed@, (rule.2 * 9 / 10) as nat)));
                }
            }
            k += 1;
        }
        assert(rs.take(self.rules.len() as int) =~= rs);
    }

    /// Corrections of a typed reading, most confident first: the table's
    /// correction of the whole reading; the corrections of table patterns of
    /// three characters or more found inside it, at nine tenths of the
    /// rule's confidence; then swaps of one confusable kana, at
    /// `CONFUSION_CONFIDENCE`. A correction that changes nothing or repeats
    /// an earlier one is left out; equal confidences keep that order.
    pub fn correct(&self, input: &str) -> (r: Vec<TypoCandidate>)
        ensures
            r@.len() == corrections(input@).len(),
            forall|j: int| 0 <= j < r@.len() ==> {
                &&& (#[trigger] r@[j]).corrected@ == corrections(input@)[j].0
                &&& r@[j].confidence == corrections(input@)[j].1
                &&& r@[j].original@ == input@
            },
    {
        let cs = chars_of(input);
        let mut out: Vec<(Vec<char>, u32)> = Vec::new();
        match self.find_rule(cs.as_slice()) {
            Some(k) => {
                let fixed = &self.rules[k].1;
                if !chars_eq(fixed.as_slice(), cs.as_slice()) {
                    let copy = vec_from_range(fixed.as_slice(), 0, fixed.len());
                    assert(fixed@.subrange(0, fixed@.len() as int) =~= fixed@);
                    out.push((copy, self.rules[k].2));
                }
            },
            None => {},
        }
        assert(pairs_view(out@) =~= whole_fix(input@));
        self.add_inner_fixes(cs.as_slice(), &mut out);
        add_swaps(cs.as_slice(), &mut out);
        let sorted = sort_by_confidence(&out);
        let ghost want = corrections(input@);
        let mut r: Vec<TypoCandidate> = Vec::new();
        let mut k: usize = 0;
        while k < sorted.len()
            invariant
                k <= sorted.len(),
                cs@ == input@,
                pairs_view(sorted@) == want,
                r@.len() == k,
                forall|j: int| 0 <= j < k ==> {
                    &&& (#[trigger] r@[j]).corrected@ == want[j].0
                    &&& r@[j].confidence == want[j].1
                    &&& r@[j].original@ == input@
                },
            decreases sorted.len() - k,
        {
            assert(want[k as int] == (sorted@[k as int].0@, sorted@[k as int].1 as nat));
            r.push(TypoCandidate {
                corrected: string_from_chars(sorted[k].0.as_slice()),
                original: string_from_chars(cs.as_slice()),
                confidence: sorted[k].1,
            });
            k += 1;
        }
        r
    }


    /// Index of the first entry of the key table for `c`.
    fn find_key(&self, c: char) -> (r: Option<usize>)
        ensures
            r is None ==> neighbours_of(qwerty_neighbours(), c) == Seq::<char>::empty(),
            r matches Some(k) ==> k < self.adjacent_keys@.len() && neighbours_of(qwerty_neighbours(), c)
                == self.adjacent_keys@[k as int].1@,
    {
        proof {
            use_type_invariant(self);
        }
        let ghost ks = qwerty_neighbours();
        let mut k: usize = 0;
        assert(ks.skip(0) =~= ks);
        while k < self.adjacent_keys.len()
            invariant
                k <= self.adjacent_keys@.len(),
                ks == qwerty_neighbours(),
                keys_view(self.adjacent_keys@) == ks,
                neighbours_of(ks, c) == neighbours_of(ks.skip(k as int), c),
            decreases self.adjacent_keys.len() - k,
        {
            assert(ks.skip(k as int)[0] == ks[k as int]);
            assert(ks.skip(k as int).drop_first() =~= ks.skip(k + 1));
            assert(ks[k as int] == (self.adjacent_keys@[k as int].0, self.adjacent_keys@[k as int].1@));
            if self.adjacent_keys[k].0 == c {
                return Some(k);
            }
            k += 1;
        }
        assert(ks.skip(k as int).len() == 0);
        None
    }

    /// The romaji strings made by swapping one key of `romaji` for a key
    /// next to it on a QWERTY keyboard, without repeats, in increasing order.
    /// Each is one edit away from `romaji`.
    pub fn romaji_adjacent_variants(&self, romaji: &str) -> (r: Vec<String>)
        ensures
            strictly_sorted(r@.map_values(|x: String| x@)),
            forall|v: Seq<char>| r@.map_values(|x: String| x@).contains(v) <==> is_adjacent_variant(romaji@, v),
            forall|k: int| 0 <= k < r@.len() ==> crate::distance::edit_distance(romaji@, (#[trigger] r@[k])@) == 1,
    {
        let cs = chars_of(romaji);
        let mut out: Vec<Vec<char>> = Vec::new();
        let mut i: usize = 0;
        assert(seqs_view(out@) =~= Seq::<Seq<char>>::empty());
        while i < cs.len()
            invariant
                i <= cs.len(),
                cs@ == romaji@,
                strictly_sorted(seqs_view(out@)),
                forall|v: Seq<char>| #![trigger seqs_view(out@).contains(v)] seqs_view(out@).contains(v) <==> exists|i2: int| 0 <= i2 < i && #[trigger] is_adjacent_swap(cs@, v, i2),
            decreases cs.len() - i,
        {
            let ghost before = seqs_view(out@);
            match self.find_key(cs[i]) {
                Some(kk) => {
                    let ns = &self.adjacent_keys[kk].1;
                    let mut j: usize = 0;
                    assert(ns@.take(0) =~= Seq::<char>::empty());
                    while j < ns.len()
                        invariant
                            i < cs.len(),
                            j <= ns.len(),
                            cs@ == romaji@,
                            ns@ == neighbours_of(qwerty_neighbours(), cs@[i as int]),
                            strictly_sorted(seqs_view(out@)),
                            forall|v: Seq<char>| #![trigger seqs_view(out@).contains(v)] seqs_view(out@).contains(v) <==> (before.contains(v) || swap_among(cs@, v, i as int, ns@.take(j as int))),
                        decreases ns.len() - j,
                    {
                        let mut var = vec_from_range(cs.as_slice(), 0, cs.len());
                        var.set(i, ns[j]);
                        let ghost w = var@;
                        assert(w =~= cs@.update(i as int, ns@[j as int]));
                        let ghost prev = seqs_view(out@);
                        if !chars_eq(var.as_slice(), cs.as_slice()) {
                            insert_sorted_unique(&mut out, var);
                        }
                        let ghost j0 = j as int;
                        j += 1;
                        proof {
                            assert forall|v: Seq<char>| seqs_view(out@).contains(v) <==> (before.contains(v) || swap_among(cs@, v, i as int, ns@.take(j as int))) by {
                                lemma_swap_step(cs@, v, i as int, ns@, j0);
                                assert(seqs_view(out@).contains(v) <==> (prev.contains(v) || (v == w && w != cs@)));
                                assert(w == cs@.update(i as int, ns@[j0]));
                                assert(prev.contains(v) <==> (before.contains(v) || swap_among(cs@, v, i as int, ns@.take(j0))));
                            }
                        }
                    }
                    let ghost i0 = i as int;
                    i += 1;
                    proof {
                        assert(ns@.take(ns@.len() as int) =~= ns@);
                        assert forall|v: Seq<char>| seqs_view(out@).contains(v) <==> exists|i2: int| 0 <= i2 < i && #[trigger] is_adjacent_swap(cs@, v, i2) by {
                            if swap_among(cs@, v, i0, ns@) {
                                assert(is_adjacent_swap(cs@, v, i0));
                            }
                            if exists|i2: int| 0 <= i2 < i && #[trigger] is_adjacent_swap(cs@, v, i2) {
                                let i2 = choose|i2: int| 0 <= i2 < i && #[trigger] is_adjacent_swap(cs@, v, i2);
                                if i2 < i0 {
                                    assert(before.contains(v));
                                }
                            }
                        }
                    }
                },
                None => {
                    let ghost i0 = i as int;
                    i += 1;
                    proof {
                        assert forall|v: Seq<char>| seqs_view(out@).contains(v) <==> exists|i2: int| 0 <= i2 < i && #[trigger] is_adjacent_swap(cs@, v, i2) by {
                            if exists|i2: int| 0 <= i2 < i && #[trigger] is_adjacent_swap(cs@, v, i2) {
                                let i2 = choose|i2: int| 0 <= i2 < i && #[trigger] is_adjacent_swap(cs@, v, i2);
                                if i2 == i0 {
                                    assert(!Seq::<char>::empty().contains(v[i0]));
                                }
                            }
                        }
                    }
                },
            }
        }
        let mut r: Vec<String> = Vec::new();
        let mut k: usize = 0;
        while k < out.len()
            invariant
                k <= out.len(),
                r@.len() == k,
                forall|m: int| 0 <= m < k ==> (#[trigger] r@[m])@ == out@[m]@,
            decreases out.len() - k,
        {
            r.push(string_from_chars(out[k].as_slice()));
            k += 1;
        }
        proof {
            let rv = r@.map_values(|x: String| x@);
            assert(rv =~= seqs_view(out@));
            assert forall|k: int| 0 <= k < r@.len() implies crate::distance::edit_distance(romaji@, (#[trigger] r@[k])@) == 1 by {
                let v = r@[k]@;
                assert(rv[k] == v);
                assert(rv.contains(v));
                let i2 = choose|i2: int| 0 <= i2 < cs@.len() && #[trigger] is_adjacent_swap(cs@, v, i2);
                lemma_distance_one_swap(romaji@, i2, v[i2]);
                if crate::distance::edit_distance(romaji@, v) == 0 {
                    lemma_distance_zero(romaji@, v);
                }
            }
        }
        r
    }

    /// Levenshtein distance between two strings, counted in characters.
    pub fn edit_distance(s1: &str, s2: &str) -> (r: usize)
        requires
            s1@.len() + s2@.len() < usize::MAX,
        ensures
            r == crate::distance::edit_distance(s1@, s2@),
    {
        let a = chars_of(s1);
        let b = chars_of(s2);
        edit_distance_chars(a.as_slice(), b.as_slice())
    }
}

impl Default for TypoCorrector {
    fn default() -> (r: Self) {
        Self::new()
    }
}

/// Whether a spelling correction is offered, and whether it is put first:
/// it is offered when its confidence (in thousandths) is at least 700 or
/// the corrected reading converts at least 2001 cheaper (`cost_gain`); it
/// is put first only when it is the first one offered and its conversion is
/// clearly cheaper, cheaper at confidence 750, or at most 499 dearer at
/// confidence 900 - never otherwise.
pub open spec fn typo_acceptance(confidence: u32, cost_gain: int, first: bool) -> (bool, bool) {
    let offered = confidence >= 700 || cost_gain > 2000;
    let first_place = offered && first && (cost_gain > 2000 || (confidence >= 750 && cost_gain > 0) || (confidence
        >= 900 && cost_gain > -500));
    (offered, first_place)
}

/// Whether a correction with `confidence` is offered and put first, given
/// the cost of converting the reading as typed and as corrected, as
/// `typo_acceptance` says (the gain saturates in `i32`).
pub fn accept_typo(confidence: u32, original_cost: i32, corrected_cost: i32, first: bool) -> (r: (bool, bool))
    ensures
        r == typo_acceptance(confidence, crate::lattice::sat(original_cost - corrected_cost) as int, first),
{
    let gain = crate::lattice::sat_sub(original_cost, corrected_cost);
    let offered = confidence >= 700 || gain > 2000;
    let first_place = offered && first && (gain > 2000 || (confidence >= 750 && gain > 0) || (confidence >= 900
        && gain > -500));
    (offered, first_place)
}


proof fn lemma_swaps_at_has(input: Seq<char>, i: int, pairs: Seq<(char, char)>, q: int)
    requires
        0 <= i < input.len(),
        0 <= q < pairs.len(),
        pairs[q].0 == input[i],
    ensures
        swaps_at(input, i, pairs).contains(input.update(i, pairs[q].1)),
    decreases pairs.len(),
{
    let d = pairs.drop_last();
    if q < pairs.len() - 1 {
        assert(d[q] == pairs[q]);
        lemma_swaps_at_has(input, i, d, q);
        let prev = swaps_at(input, i, d);
        let k = choose|k: int| 0 <= k < prev.len() && prev[k] == input.update(i, pairs[q].1);
        if input[i] == pairs.last().0 {
            assert(prev.push(input.update(i, pairs.last().1))[k] == prev[k]);
        }
    } else {
        assert(pairs.last() == pairs[q]);
        let r = swaps_at(input, i, pairs);
        assert(r[r.len() - 1] == input.update(i, pairs[q].1));
    }
}

proof fn lemma_swaps_upto_has(input: Seq<char>, n: nat, p: int, v: Seq<char>)
    requires
        0 <= p < n <= input.len(),
        swaps_at(input, p, kana_confusions()).contains(v),
    ensures
        swaps_upto(input, n).contains(v),
    decreases n,
{
    let a = swaps_upto(input, (n - 1) as nat);
    let b = swaps_at(input, n - 1, kana_confusions());
    if p < n - 1 {
        lemma_swaps_upto_has(input, (n - 1) as nat, p, v);
        let k = choose|k: int| 0 <= k < a.len() && a[k] == v;
        assert((a + b)[k] == a[k]);
    } else {
        let k = choose|k: int| 0 <= k < b.len() && b[k] == v;
        assert((a + b)[a.len() + k] == b[k]);
    }
}

proof fn lemma_with_swaps_has(cs: Seq<(Seq<char>, nat)>, vs: Seq<Seq<char>>)
    ensures
        forall|m: int| 0 <= m < vs.len() ==> has_corrected(with_swaps(cs, vs), #[trigger] vs[m]),
    decreases vs.len(),
{
    if vs.len() > 0 {
        let d = vs.drop_last();
        lemma_with_swaps_has(cs, d);
        let prev = with_swaps(cs, d);
        let r = with_swaps(cs, vs);
        assert forall|m: int| 0 <= m < vs.len() implies has_corrected(r, #[trigger] vs[m]) by {
            if m < vs.len() - 1 {
                assert(vs[m] == d[m]);
                assert(has_corrected(prev, d[m]));
                let j = choose|j: int| 0 <= j < prev.len() && (#[trigger] prev[j]).0 == d[m];
                if !has_corrected(prev, vs.last()) {
                    assert(r[j] == prev[j]);
                }
                assert(r[j].0 == vs[m]);
            } else {
                assert(vs[m] == vs.last());
                if !has_corrected(prev, vs.last()) {
                    assert(r[r.len() - 1].0 == vs.last());
                }
            }
        }
    }
}

/// Every confusable kana of the reading is offered swapped: where the reading
/// holds a kana typed for another (お for う, わ for は, お for を, ず for づ,
/// じ for ぢ, え for へ, ー for う), the corrections include the reading with
/// that one kana replaced by the meant one.
pub proof fn law_confusable_kana_swapped(input: Seq<char>, p: int, typed: char, meant: char)
    requires
        0 <= p < input.len(),
        input[p] == typed,
        (typed == 'お' && meant == 'う') || (typed == 'わ' && meant == 'は') || (typed == 'お' && meant == 'を')
            || (typed == 'ず' && meant == 'づ') || (typed == 'じ' && meant == 'ぢ') || (typed == 'え' && meant == 'へ')
            || (typed == 'ー' && meant == 'う'),
    ensures
        has_corrected(corrections(input), input.update(p, meant)),
{
    broadcast use vstd::seq_lib::group_to_multiset_ensures;

    let k = kana_confusions();
    let q: int = if typed == 'お' && meant == 'う' {
        0
    } else if typed == 'わ' {
        1
    } else if typed == 'お' {
        2
    } else if typed == 'ず' {
        3
    } else if typed == 'じ' {
        4
    } else if typed == 'え' {
        5
    } else {
        6
    };
    assert(k[q] == (typed, meant));
    let v = input.update(p, meant);
    lemma_swaps_at_has(input, p, k, q);
    lemma_swaps_upto_has(input, input.len(), p, v);
    let vs = swaps_upto(input, input.len());
    let m = choose|m: int| 0 <= m < vs.len() && vs[m] == v;
    let base = inner_fixes(whole_fix(input), typo_rules(), input);
    lemma_with_swaps_has(base, vs);
    let raw = raw_corrections(input);
    assert(has_corrected(raw, vs[m]));
    let j = choose|j: int| 0 <= j < raw.len() && (#[trigger] raw[j]).0 == v;
    law_by_confidence(raw);
    let c = corrections(input);
    assert(raw.contains(raw[j]));
    assert(raw.to_multiset().count(raw[j]) > 0);
    assert(c.to_multiset().count(raw[j]) > 0);
    assert(c.contains(raw[j]));
    let t = choose|t: int| 0 <= t < c.len() && c[t] == raw[j];
    assert(c[t].0 == v);
}

} // verus!
