//! The list of the alias and command settings: which entries are shown for
//! a filter and a search text, and in which order.

use vstd::prelude::*;
use crate::text::{chars_of, contains_chars, seq_contains_seq, string_from_chars};
use crate::llm::{trim_text, trim_ws, trim_by, trim_exec, class_of, lead_len, lemma_lead_len, is_blank};
use crate::text::{chars_eq, string_from_range, contains_str};
use crate::keys::autorun_label;
use crate::fuzzy::{lex_le, lex_le_exec};

verus! {

/// An entry of the settings list: an alias (with its expansion) or a
/// command of the history.
pub struct SettingsEntry {
    /// The alias, or the command.
    pub name: String,
    /// What is typed: the expansion, or the command.
    pub target: String,
    /// The description.
    pub description: String,
    /// Whether it is an alias.
    pub is_alias: bool,
    /// How often it was used (aliases carry the largest value).
    pub frequency: u32,
    /// Whether choosing it runs the line at once.
    pub auto_run: bool,
}

/// What Unicode lower-casing (`str::to_lowercase`) gives for `s`.
pub uninterp spec fn lowercased(s: Seq<char>) -> Seq<char>;

/// `str::to_lowercase`: the Unicode lower case of `s`, named `lowercased`.
#[verifier::external_body]
fn to_lower(s: &str) -> (r: String)
    ensures
        r@ == lowercased(s@),
{
    s.to_lowercase()
}

/// The search text as the list uses it: trimmed, then lower case.
pub open spec fn search_key(query: Seq<char>) -> Seq<char> {
    lowercased(trim_ws(query))
}

/// Whether an entry is shown for the filter (1: aliases only, 2: commands
/// only, anything else: all) and the search key (empty: no search; else it
/// must occur in the lower case of the name, the target or the
/// description).
pub open spec fn entry_shown(e: SettingsEntry, filter: u8, q: Seq<char>) -> bool {
    &&& (filter == 1 ==> e.is_alias)
    &&& (filter == 2 ==> !e.is_alias)
    &&& (q.len() == 0 || seq_contains_seq(lowercased(e.name@), q) || seq_contains_seq(lowercased(e.target@), q)
        || seq_contains_seq(lowercased(e.description@), q))
}

/// The indices of the shown entries among the first `k`, in list order.
pub open spec fn shown_upto(es: Seq<SettingsEntry>, filter: u8, q: Seq<char>, k: nat) -> Seq<usize>
    decreases k,
{
    if k == 0 {
        Seq::empty()
    } else {
        let p = shown_upto(es, filter, q, (k - 1) as nat);
        if entry_shown(es[k - 1], filter, q) {
            p.push((k - 1) as usize)
        } else {
            p
        }
    }
}

/// The text of the run-on-Enter column.
pub open spec fn autorun_text(auto_run: bool) -> Seq<char> {
    if auto_run {
        "即実行"@
    } else {
        "✎挿入のみ"@
    }
}

/// The sort key of an entry for the sort column `col`: by use (`-2`, most
/// used first, then by lower-case name), or by the lower case of the alias
/// (`0`, empty for commands), of the target (`1`), the run-on-Enter text
/// (`3`) or the description (any other column).
pub open spec fn sort_key(e: SettingsEntry, col: i32) -> (int, Seq<char>) {
    if col == -2 {
        (-(e.frequency as int), lowercased(e.name@))
    } else if col == 0 {
        (0, if e.is_alias { lowercased(e.name@) } else { Seq::empty() })
    } else if col == 1 {
        (0, lowercased(e.target@))
    } else if col == 3 {
        (0, autorun_text(e.auto_run))
    } else {
        (0, lowercased(e.description@))
    }
}

/// Key `a` sorts strictly before key `b`.
pub open spec fn key_before(a: (int, Seq<char>), b: (int, Seq<char>)) -> bool {
    a.0 < b.0 || (a.0 == b.0 && lex_le(a.1, b.1) && a.1 != b.1)
}

/// `x` put into `s` after every element it does not sort strictly before.
pub open spec fn insert_stable(s: Seq<((int, Seq<char>), usize)>, x: ((int, Seq<char>), usize)) -> Seq<
    ((int, Seq<char>), usize),
>
    decreases s.len(),
{
    if s.len() == 0 {
        seq![x]
    } else if key_before(x.0, s.last().0) {
        insert_stable(s.drop_last(), x).push(s.last())
    } else {
        s.push(x)
    }
}

/// The keyed rows sorted by key, rows of equal keys in their order.
pub open spec fn sort_stable(s: Seq<((int, Seq<char>), usize)>) -> Seq<((int, Seq<char>), usize)>
    decreases s.len(),
{
    if s.len() == 0 {
        Seq::empty()
    } else {
        insert_stable(sort_stable(s.drop_last()), s.last())
    }
}

/// The rows of the settings list, as indices into `es`: the shown entries,
/// kept in list order for the sort column `-1` (or any other negative
/// column but `-2`), else sorted stably by `sort_key`, and reversed for a
/// descending column sort.
pub open spec fn visible_rows(es: Seq<SettingsEntry>, filter: u8, query: Seq<char>, col: i32, desc: bool) -> Seq<usize> {
    let rows = shown_upto(es, filter, search_key(query), es.len());
    if col == -2 || col >= 0 {
        let sorted = sort_stable(rows.map_values(|i: usize| (sort_key(es[i as int], col), i))).map_values(
            |r: ((int, Seq<char>), usize)| r.1,
        );
        if col >= 0 && desc {
            sorted.reverse()
        } else {
            sorted
        }
    } else {
        rows
    }
}

proof fn lemma_shown_bound(es: Seq<SettingsEntry>, filter: u8, q: Seq<char>, k: nat)
    ensures
        forall|j: int| 0 <= j < shown_upto(es, filter, q, k).len() ==> #[trigger] shown_upto(es, filter, q, k)[j] < k,
    decreases k,
{
    if k > 0 {
        let k1 = (k - 1) as nat;
        lemma_shown_bound(es, filter, q, k1);
        let p = shown_upto(es, filter, q, k1);
        let cur = shown_upto(es, filter, q, k);
        assert forall|j: int| 0 <= j < cur.len() implies #[trigger] cur[j] < k by {
            if j < p.len() {
                assert(cur[j] == p[j]);
            }
        }
    }
}

proof fn lemma_insert_at(s: Seq<((int, Seq<char>), usize)>, x: ((int, Seq<char>), usize), j: int)
    requires
        0 <= j <= s.len(),
        forall|m: int| j <= m < s.len() ==> key_before(x.0, #[trigger] s[m].0),
        j == 0 || !key_before(x.0, s[j - 1].0),
    ensures
        insert_stable(s, x) == s.insert(j, x),
    decreases s.len(),
{
    if s.len() == 0 {
        assert(s.insert(j, x) =~= seq![x]);
    } else if j == s.len() {
        assert(s.insert(j, x) =~= s.push(x));
    } else {
        assert(key_before(x.0, s.last().0));
        lemma_insert_at(s.drop_last(), x, j);
        assert(s.drop_last().insert(j, x).push(s.last()) =~= s.insert(j, x));
    }
}

fn key_of(e: &SettingsEntry, col: i32) -> (r: (i64, Vec<char>))
    ensures
        r.0 as int == sort_key(*e, col).0,
        r.1@ == sort_key(*e, col).1,
{
    if col == -2 {
        let n = to_lower(e.name.as_str());
        (-(e.frequency as i64), chars_of(n.as_str()))
    } else if col == 0 {
        if e.is_alias {
            let n = to_lower(e.name.as_str());
            (0, chars_of(n.as_str()))
        } else {
            (0, Vec::new())
        }
    } else if col == 1 {
        let t = to_lower(e.target.as_str());
        (0, chars_of(t.as_str()))
    } else if col == 3 {
        (0, chars_of(autorun_label(e.auto_run)))
    } else {
        let d = to_lower(e.description.as_str());
        (0, chars_of(d.as_str()))
    }
}

fn before_exec(a: &(i64, Vec<char>), b: &(i64, Vec<char>)) -> (r: bool)
    ensures
        r == key_before((a.0 as int, a.1@), (b.0 as int, b.1@)),
{
    if a.0 < b.0 {
        true
    } else if a.0 == b.0 {
        lex_le_exec(a.1.as_slice(), b.1.as_slice()) && !crate::text::chars_eq(a.1.as_slice(), b.1.as_slice())
    } else {
        false
    }
}

spec fn keyed_view(v: Seq<((i64, Vec<char>), usize)>) -> Seq<((int, Seq<char>), usize)> {
    v.map_values(|r: ((i64, Vec<char>), usize)| ((r.0.0 as int, r.0.1@), r.1))
}

fn entry_matches(e: &SettingsEntry, q: &Vec<char>) -> (r: bool)
    ensures
        r == (seq_contains_seq(lowercased(e.name@), q@) || seq_contains_seq(lowercased(e.target@), q@)
            || seq_contains_seq(lowercased(e.description@), q@)),
{
    let n = chars_of(to_lower(e.name.as_str()).as_str());
    if contains_chars(n.as_slice(), q.as_slice()) {
        return true;
    }
    let t = chars_of(to_lower(e.target.as_str()).as_str());
    if contains_chars(t.as_slice(), q.as_slice()) {
        return true;
    }
    let d = chars_of(to_lower(e.description.as_str()).as_str());
    contains_chars(d.as_slice(), q.as_slice())
}

/// The rows of the settings list for the filter, the search text, the
/// sort column and direction, as indices into `entries` (see
/// `visible_rows`).
pub fn settings_rows(entries: &Vec<SettingsEntry>, filter: u8, query: &str, sort_col: i32, desc: bool) -> (r: Vec<usize>)
    ensures
        r@ == visible_rows(entries@, filter, query@, sort_col, desc),
{
    let trimmed = trim_text(query);
    let q = chars_of(to_lower(string_from_chars(trimmed.as_slice()).as_str()).as_str());
    let ghost qs = search_key(query@);
    assert(q@ == qs);
    let mut rows: Vec<usize> = Vec::new();
    let mut k: usize = 0;
    while k < entries.len()
        invariant
            k <= entries@.len(),
            q@ == qs,
            rows@ == shown_upto(entries@, filter, qs, k as nat),
        decreases entries@.len() - k,
    {
        let e = &entries[k];
        let kind_ok = if filter == 1 {
            e.is_alias
        } else if filter == 2 {
            !e.is_alias
        } else {
            true
        };
        let shown = kind_ok && (q.len() == 0 || entry_matches(e, &q));
        if shown {
            rows.push(k);
        }
        k += 1;
    }
    if !(sort_col == -2 || sort_col >= 0) {
        return rows;
    }
    let ghost rv = rows@.map_values(|i: usize| (sort_key(entries@[i as int], sort_col), i));
    let mut sorted: Vec<((i64, Vec<char>), usize)> = Vec::new();
    let mut m: usize = 0;
    proof {
        lemma_shown_bound(entries@, filter, qs, entries@.len() as nat);
        assert(rv.take(0) =~= Seq::<((int, Seq<char>), usize)>::empty());
        assert(keyed_view(sorted@) =~= Seq::<((int, Seq<char>), usize)>::empty());
    }
    while m < rows.len()
        invariant
            m <= rows@.len(),
            rows@ == shown_upto(entries@, filter, qs, entries@.len() as nat),
            forall|j: int| 0 <= j < rows@.len() ==> (#[trigger] rows@[j]) < entries@.len(),
            rv == rows@.map_values(|i: usize| (sort_key(entries@[i as int], sort_col), i)),
            keyed_view(sorted@) == sort_stable(rv.take(m as int)),
        decreases rows@.len() - m,
    {
        let idx = rows[m];
        let key = key_of(&entries[idx], sort_col);
        let ghost x = ((key.0 as int, key.1@), idx);
        assert(x == rv[m as int]);
        let mut j = sorted.len();
        while j > 0 && before_exec(&key, &sorted[j - 1].0)
            invariant
                j <= sorted@.len(),
                x.0 == (key.0 as int, key.1@),
                forall|t: int| j <= t < sorted@.len() ==> key_before(x.0, (#[trigger] keyed_view(sorted@)[t]).0),
            decreases j,
        {
            assert(keyed_view(sorted@)[j - 1] == ((sorted@[j - 1].0.0 as int, sorted@[j - 1].0.1@), sorted@[j - 1].1));
            j -= 1;
        }
        let ghost old_s = keyed_view(sorted@);
        proof {
            if j > 0 {
                assert(old_s[j - 1] == ((sorted@[j - 1].0.0 as int, sorted@[j - 1].0.1@), sorted@[j - 1].1));
            }
            assert(j == 0 || !key_before(x.0, old_s[j - 1].0));
            lemma_insert_at(old_s, x, j as int);
            assert(rv.take(m + 1).drop_last() =~= rv.take(m as int));
            assert(rv.take(m + 1).last() == x);
        }
        sorted.insert(j, (key, idx));
        assert(keyed_view(sorted@) =~= old_s.insert(j as int, x));
        m += 1;
    }
    assert(rv.take(rows@.len() as int) =~= rv);
    let mut out: Vec<usize> = Vec::new();
    let mut t: usize = 0;
    let ghost sv = keyed_view(sorted@);
    while t < sorted.len()
        invariant
            t <= sorted@.len(),
            sv == keyed_view(sorted@),
            out@ == sv.take(t as int).map_values(|r: ((int, Seq<char>), usize)| r.1),
        decreases sorted@.len() - t,
    {
        out.push(sorted[t].1);
        proof {
            assert(sv.take(t + 1) =~= sv.take(t as int).push(sv[t as int]));
            assert(sv[t as int].1 == sorted@[t as int].1);
        }
        t += 1;
        assert(out@ =~= sv.take(t as int).map_values(|r: ((int, Seq<char>), usize)| r.1));
    }
    assert(sv.take(sorted@.len() as int) =~= sv);
    if sort_col >= 0 && desc {
        let mut rev: Vec<usize> = Vec::new();
        let mut u: usize = out.len();
        while u > 0
            invariant
                u <= out@.len(),
                rev@ == out@.skip(u as int).reverse(),
            decreases u,
        {
            u -= 1;
            rev.push(out[u]);
            assert(out@.skip(u as int).reverse() =~= out@.skip(u + 1).reverse().push(out@[u as int]));
        }
        assert(out@.skip(0) =~= out@);
        return rev;
    }
    out
}

/// A path separator of an expansion: '\\' or '/'.
pub open spec fn is_path_sep(c: char) -> bool {
    c == '\\' || c == '/'
}

pub open spec fn name_class() -> spec_fn(char) -> bool {
    |c: char| !is_path_sep(c)
}

pub open spec fn stem_class() -> spec_fn(char) -> bool {
    |c: char| c != '.'
}

/// What the browse button writes into the expansion field for the chosen
/// file: the path, in double quotes where it holds a space.
pub open spec fn browsed_text(path: Seq<char>) -> Seq<char> {
    if path.contains(' ') {
        seq!['"'] + path + seq!['"']
    } else {
        path
    }
}

/// The alias proposed for an expansion: without double quotes at its ends,
/// the part after the last path separator, up to its first '.'.
pub open spec fn stem_of(exp: Seq<char>) -> Seq<char> {
    let t = trim_by(exp, class_of(2));
    let name = t.skip(t.len() - lead_len(t.reverse(), name_class()));
    name.take(lead_len(name, stem_class()) as int)
}

/// The expansion text for a browsed path (see `browsed_text`).
pub fn browsed_expansion(path: &str) -> (r: String)
    ensures
        r@ == browsed_text(path@),
{
    let cs = chars_of(path);
    let mut spaced = false;
    let mut i: usize = 0;
    while i < cs.len()
        invariant
            i <= cs@.len(),
            spaced == (exists|k: int| 0 <= k < i && cs@[k] == ' '),
        decreases cs@.len() - i,
    {
        if cs[i] == ' ' {
            spaced = true;
        }
        i += 1;
    }
    if !spaced {
        return string_from_chars(cs.as_slice());
    }
    let mut out: Vec<char> = Vec::new();
    out.push('"');
    let mut j: usize = 0;
    while j < cs.len()
        invariant
            j <= cs@.len(),
            out@ == seq!['"'] + cs@.take(j as int),
        decreases cs@.len() - j,
    {
        out.push(cs[j]);
        assert(cs@.take(j + 1) =~= cs@.take(j as int).push(cs@[j as int]));
        j += 1;
    }
    out.push('"');
    assert(cs@.take(cs@.len() as int) =~= cs@);
    string_from_chars(out.as_slice())
}

/// The alias proposed for an expansion (see `stem_of`).
pub fn script_stem(expansion: &str) -> (r: String)
    ensures
        r@ == stem_of(expansion@),
{
    let cs = chars_of(expansion);
    let t = trim_exec(&cs, 2);
    let n = t.len();
    let mut b: usize = n;
    while b > 0 && t[b - 1] != '\\' && t[b - 1] != '/'
        invariant
            b <= n,
            n == t@.len(),
            forall|k: int| b <= k < n ==> !is_path_sep(#[trigger] t@[k]),
        decreases b,
    {
        b -= 1;
    }
    proof {
        let rv = t@.reverse();
        assert forall|k: int| 0 <= k < n - b implies name_class()(#[trigger] rv[k]) by {
            assert(rv[k] == t@[n - 1 - k]);
        }
        if b > 0 {
            assert(rv[n - b] == t@[b - 1]);
        }
        lemma_lead_len(rv, name_class(), (n - b) as int);
    }
    let mut e: usize = b;
    while e < n && t[e] != '.'
        invariant
            b <= e <= n,
            n == t@.len(),
            forall|k: int| b <= k < e ==> #[trigger] t@[k] != '.',
        decreases n - e,
    {
        e += 1;
    }
    proof {
        let name = t@.skip(b as int);
        assert forall|k: int| 0 <= k < e - b implies stem_class()(#[trigger] name[k]) by {
            assert(name[k] == t@[b + k]);
        }
        if e < n {
            assert(name[e - b] == t@[e as int]);
        }
        lemma_lead_len(name, stem_class(), (e - b) as int);
        assert(name.take((e - b) as int) =~= t@.subrange(b as int, e as int));
    }
    string_from_range(t.as_slice(), b, e)
}

/// The text of the expansion field after browsing to `path`, and the alias
/// to propose: the stem of that text where the alias field is blank, else
/// none.
pub fn browse_fill(path: &str, alias_field: &str) -> (r: (String, Option<String>))
    ensures
        r.0@ == browsed_text(path@),
        r.1 is Some <==> trim_ws(alias_field@).len() == 0,
        r.1 is Some ==> r.1.unwrap()@ == stem_of(browsed_text(path@)),
{
    let exp = browsed_expansion(path);
    if is_blank(alias_field) {
        let stem = script_stem(exp.as_str());
        (exp, Some(stem))
    } else {
        (exp, None)
    }
}

/// What saving the form does.
pub struct SavePlan {
    /// Whether an alias is saved (else a command).
    pub is_alias: bool,
    /// The alias field, trimmed.
    pub alias: String,
    /// The expansion field, trimmed.
    pub expansion: String,
    /// The key of the saved entry: the alias, or for a command the expansion.
    pub key: String,
    /// Whether the expansion names a script or a program.
    pub is_script: bool,
    /// The entry that was being edited, where saving changes its kind or its
    /// key: it is removed.
    pub remove_old: Option<(bool, String)>,
}

/// Whether the lower case of an expansion holds a script or program
/// extension.
pub open spec fn looks_like_script(exp: Seq<char>) -> bool {
    let l = lowercased(exp);
    seq_contains_seq(l, ".ps1"@) || seq_contains_seq(l, ".bat"@) || seq_contains_seq(l, ".cmd"@)
        || seq_contains_seq(l, ".sh"@) || seq_contains_seq(l, ".py"@) || seq_contains_seq(l, ".exe"@)
}

/// Whether saving as `(is_alias, key)` replaces the edited entry `old`.
pub open spec fn replaces(old: Option<(bool, String)>, is_alias: bool, key: Seq<char>) -> bool {
    old matches Some(o) && (o.0 != is_alias || o.1@ != key)
}

fn names_script(exp: &str) -> (r: bool)
    ensures
        r == looks_like_script(exp@),
{
    let l = chars_of(to_lower(exp).as_str());
    let s = l.as_slice();
    contains_str(s, ".ps1") || contains_str(s, ".bat") || contains_str(s, ".cmd") || contains_str(s, ".sh")
        || contains_str(s, ".py") || contains_str(s, ".exe")
}

/// The plan for saving the form with the alias field, the expansion field
/// and the entry being edited (`old`: its kind and key); none where the
/// expansion is blank.
pub fn save_plan(alias_field: &str, expansion_field: &str, old: Option<(bool, String)>) -> (r: Option<SavePlan>)
    ensures
        r is None <==> trim_ws(expansion_field@).len() == 0,
        r is Some ==> r.unwrap().alias@ == trim_ws(alias_field@),
        r is Some ==> r.unwrap().expansion@ == trim_ws(expansion_field@),
        r is Some ==> r.unwrap().is_alias == (trim_ws(alias_field@).len() > 0),
        r is Some ==> r.unwrap().key@ == (if r.unwrap().is_alias {
            trim_ws(alias_field@)
        } else {
            trim_ws(expansion_field@)
        }),
        r is Some ==> r.unwrap().is_script == looks_like_script(trim_ws(expansion_field@)),
        r is Some ==> r.unwrap().remove_old == (if replaces(old, r.unwrap().is_alias, r.unwrap().key@) {
            old
        } else {
            None
        }),
{
    let a = trim_text(alias_field);
    let x = trim_text(expansion_field);
    if x.len() == 0 {
        return None;
    }
    let is_alias = a.len() > 0;
    let expansion = string_from_chars(x.as_slice());
    let is_script = names_script(expansion.as_str());
    let key_chars = if is_alias { &a } else { &x };
    let remove_old = match old {
        Some((was_alias, k)) => {
            let kc = chars_of(k.as_str());
            if was_alias != is_alias || !chars_eq(kc.as_slice(), key_chars.as_slice()) {
                Some((was_alias, k))
            } else {
                None
            }
        },
        None => None,
    };
    Some(
        SavePlan {
            is_alias,
            alias: string_from_chars(a.as_slice()),
            expansion,
            key: string_from_chars(key_chars.as_slice()),
            is_script,
            remove_old,
        },
    )
}

} // verus!
