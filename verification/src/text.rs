//! Character classes and small string utilities shared by the engine.

use vstd::prelude::*;

verus! {

/// Hiragana letters that have a katakana counterpart (U+3041..=U+3096).
pub open spec fn is_hiragana_letter(c: char) -> bool {
    0x3041 <= (c as u32) && (c as u32) <= 0x3096
}

/// Katakana letters that have a hiragana counterpart (U+30A1..=U+30F6).
pub open spec fn is_katakana_letter(c: char) -> bool {
    0x30A1 <= (c as u32) && (c as u32) <= 0x30F6
}

/// Character with the given scalar value (the caller guarantees it is one).
#[verifier::external_body]
fn char_from_scalar(u: u32) -> (c: char)
    requires
        (u <= 0xD7FF || (0xE000 <= u && u <= 0x10FFFF)),
    ensures
        c as u32 == u,
{
    char::from_u32(u).unwrap()
}

/// The ASCII digit for `d`.
pub fn char_of_digit(d: u32) -> (c: char)
    requires
        d <= 9,
    ensures
        c == (0x30 + d) as char,
        c as u32 == 0x30 + d,
{
    let c = char_from_scalar(0x30 + d);
    proof {
        vstd::utf8::char_u32_cast(c, c as u32);
    }
    c
}

/// Appends a character to a `String` (std's `String::push`).
#[verifier::external_body]
pub(crate) fn push_char(s: &mut String, c: char)
    ensures
        final(s)@ == old(s)@.push(c),
{
    s.push(c)
}

/// Collects the characters of a string slice.
pub fn chars_of(s: &str) -> (v: Vec<char>)
    ensures
        v@ == s@,
{
    let mut v: Vec<char> = Vec::new();
    for c in it: s.chars()
        invariant
            v@ == it.seq().take(it.index() as int),
            it.seq() == s@,
    {
        v.push(c);
    }
    v
}

} // verus!

verus! {

broadcast use vstd::utf8::char_u32_cast;

/// The katakana letter for a hiragana letter; other characters are unchanged.
pub open spec fn katakana_of(c: char) -> char {
    if is_hiragana_letter(c) {
        ((c as u32) + 0x60) as char
    } else {
        c
    }
}

/// The hiragana letter for a katakana letter; other characters (the long
/// vowel mark among them) are unchanged.
pub open spec fn hiragana_of(c: char) -> char {
    if is_katakana_letter(c) {
        ((c as u32) - 0x60) as char
    } else {
        c
    }
}

pub open spec fn to_katakana_seq(s: Seq<char>) -> Seq<char> {
    s.map_values(|c: char| katakana_of(c))
}

pub open spec fn to_hiragana_seq(s: Seq<char>) -> Seq<char> {
    s.map_values(|c: char| hiragana_of(c))
}

pub fn katakana_char(c: char) -> (r: char)
    ensures
        r == katakana_of(c),
{
    let u = c as u32;
    if 0x3041 <= u && u <= 0x3096 {
        let r = char_from_scalar(u + 0x60);
        proof {
            let w = (u + 0x60) as u32;
            assert(r as u32 == w);
        }
        r
    } else {
        c
    }
}

pub fn hiragana_char(c: char) -> (r: char)
    ensures
        r == hiragana_of(c),
{
    let u = c as u32;
    if 0x30A1 <= u && u <= 0x30F6 {
        let r = char_from_scalar(u - 0x60);
        r
    } else {
        c
    }
}

/// Builds a `String` from characters.
pub fn string_from_chars(v: &[char]) -> (s: String)
    ensures
        s@ == v@,
{
    let mut s = String::new();
    let mut i: usize = 0;
    while i < v.len()
        invariant
            i <= v.len(),
            s@ == v@.take(i as int),
        decreases v.len() - i,
    {
        push_char(&mut s, v[i]);
        assert(v@.take(i + 1) == v@.take(i as int).push(v@[i as int]));
        i += 1;
    }
    assert(v@.take(v.len() as int) == v@);
    s
}

/// Converts hiragana to katakana (U+3041..=U+3096 shifted by 0x60).
pub fn hiragana_to_katakana(hiragana: &str) -> (r: String)
    ensures
        r@ == to_katakana_seq(hiragana@),
{
    let v = chars_of(hiragana);
    let mut out: Vec<char> = Vec::new();
    let mut i: usize = 0;
    while i < v.len()
        invariant
            i <= v.len(),
            v@ == hiragana@,
            out@ == to_katakana_seq(v@.take(i as int)),
        decreases v.len() - i,
    {
        let k = katakana_char(v[i]);
        out.push(k);
        assert(v@.take(i + 1) == v@.take(i as int).push(v@[i as int]));
        i += 1;
    }
    assert(v@.take(v.len() as int) == v@);
    string_from_chars(&out)
}

/// Converts katakana to hiragana (U+30A1..=U+30F6 shifted by 0x60; the long
/// vowel mark stays as it is).
pub fn katakana_to_hiragana(katakana: &str) -> (r: String)
    ensures
        r@ == to_hiragana_seq(katakana@),
{
    let v = chars_of(katakana);
    let out = katakana_to_hiragana_chars(&v);
    string_from_chars(&out)
}

pub fn katakana_to_hiragana_chars(v: &[char]) -> (out: Vec<char>)
    ensures
        out@ == to_hiragana_seq(v@),
{
    let mut out: Vec<char> = Vec::new();
    let mut i: usize = 0;
    while i < v.len()
        invariant
            i <= v.len(),
            out@ == to_hiragana_seq(v@.take(i as int)),
        decreases v.len() - i,
    {
        let k = hiragana_char(v[i]);
        out.push(k);
        assert(v@.take(i + 1) == v@.take(i as int).push(v@[i as int]));
        i += 1;
    }
    assert(v@.take(v.len() as int) == v@);
    out
}

} // verus!

verus! {

pub open spec fn is_ascii_upper(c: char) -> bool {
    'A' <= c && c <= 'Z'
}

pub open spec fn is_ascii_alpha(c: char) -> bool {
    ('A' <= c && c <= 'Z') || ('a' <= c && c <= 'z')
}

/// ASCII lower-casing of one character (`char::to_ascii_lowercase`).
pub open spec fn ascii_lower(c: char) -> char {
    if is_ascii_upper(c) {
        ((c as u32) + 32) as char
    } else {
        c
    }
}

pub fn to_ascii_lower(c: char) -> (r: char)
    ensures
        r == ascii_lower(c),
{
    if 'A' <= c && c <= 'Z' {
        let u = c as u32;
        let r = char_from_scalar(u + 32);
        r
    } else {
        c
    }
}

pub fn is_ascii_alphabetic(c: char) -> (r: bool)
    ensures
        r == is_ascii_alpha(c),
{
    ('A' <= c && c <= 'Z') || ('a' <= c && c <= 'z')
}

/// Character-sequence equality of two slices.
pub fn chars_eq(a: &[char], b: &[char]) -> (r: bool)
    ensures
        r == (a@ == b@),
{
    if a.len() != b.len() {
        return false;
    }
    let mut i: usize = 0;
    while i < a.len()
        invariant
            a.len() == b.len(),
            i <= a.len(),
            forall|j: int| 0 <= j < i ==> a@[j] == b@[j],
        decreases a.len() - i,
    {
        if a[i] != b[i] {
            return false;
        }
        i += 1;
    }
    assert(a@ =~= b@);
    true
}

/// Whether `key` equals `text[start .. start + key.len()]`.
pub fn matches_at(key: &[char], text: &[char], start: usize) -> (r: bool)
    requires
        start <= text.len(),
    ensures
        r == (start + key.len() <= text.len() && text@.subrange(
            start as int,
            start + key.len(),
        ) == key@),
{
    if key.len() > text.len() - start {
        return false;
    }
    let mut i: usize = 0;
    while i < key.len()
        invariant
            start + key.len() <= text.len(),
            i <= key.len(),
            forall|j: int| 0 <= j < i ==> key@[j] == text@[start + j],
        decreases key.len() - i,
    {
        if key[i] != text[start + i] {
            assert(text@.subrange(start as int, start + key.len())[i as int] != key@[i as int]);
            return false;
        }
        i += 1;
    }
    assert(text@.subrange(start as int, start + key.len()) =~= key@);
    true
}

} // verus!

verus! {

/// Builds a `String` from `v[from .. to]`.
pub fn string_from_range(v: &[char], from: usize, to: usize) -> (s: String)
    requires
        from <= to <= v.len(),
    ensures
        s@ == v@.subrange(from as int, to as int),
{
    let mut s = String::new();
    let mut i: usize = from;
    while i < to
        invariant
            from <= i <= to <= v.len(),
            s@ == v@.subrange(from as int, i as int),
        decreases to - i,
    {
        push_char(&mut s, v[i]);
        assert(v@.subrange(from as int, i + 1) == v@.subrange(from as int, i as int).push(v@[i as int]));
        i += 1;
    }
    s
}

/// Copies `v[from .. to]` into a new vector.
pub fn vec_from_range(v: &[char], from: usize, to: usize) -> (r: Vec<char>)
    requires
        from <= to <= v.len(),
    ensures
        r@ == v@.subrange(from as int, to as int),
{
    let mut r: Vec<char> = Vec::new();
    let mut i: usize = from;
    while i < to
        invariant
            from <= i <= to <= v.len(),
            r@ == v@.subrange(from as int, i as int),
        decreases to - i,
    {
        r.push(v[i]);
        assert(v@.subrange(from as int, i + 1) == v@.subrange(from as int, i as int).push(v@[i as int]));
        i += 1;
    }
    r
}

} // verus!

verus! {

pub open spec fn seq_ends_with(s: Seq<char>, suffix: Seq<char>) -> bool {
    suffix.len() <= s.len() && s.skip(s.len() - suffix.len()) == suffix
}

pub open spec fn seq_starts_with(s: Seq<char>, prefix: Seq<char>) -> bool {
    prefix.len() <= s.len() && s.take(prefix.len() as int) == prefix
}

/// Whether the characters `s` end with `suffix`.
pub fn ends_with_str(s: &[char], suffix: &str) -> (r: bool)
    ensures
        r == seq_ends_with(s@, suffix@),
{
    let suf = chars_of(suffix);
    if suf.len() > s.len() {
        return false;
    }
    let start = s.len() - suf.len();
    let r = matches_at(suf.as_slice(), s, start);
    assert(s@.skip(start as int) =~= s@.subrange(start as int, start + suf.len()));
    r
}

/// Whether the characters `s` start with `prefix`.
pub fn starts_with_str(s: &[char], prefix: &str) -> (r: bool)
    ensures
        r == seq_starts_with(s@, prefix@),
{
    let pre = chars_of(prefix);
    if pre.len() > s.len() {
        return false;
    }
    let r = matches_at(pre.as_slice(), s, 0);
    assert(s@.take(pre.len() as int) =~= s@.subrange(0, pre.len() as int));
    r
}

/// Whether `needle` occurs in `s` at some position.
pub open spec fn seq_contains_seq(s: Seq<char>, needle: Seq<char>) -> bool {
    exists|i: int| 0 <= i <= s.len() - needle.len() && #[trigger] s.subrange(i, i + needle.len()) == needle
}

/// Whether `needle` occurs in the characters `s`.
pub fn contains_str(s: &[char], needle: &str) -> (r: bool)
    ensures
        r == seq_contains_seq(s@, needle@),
{
    let nd = chars_of(needle);
    contains_chars(s, nd.as_slice())
}

/// Whether the characters `needle` occur in the characters `s`.
pub fn contains_chars(s: &[char], nd: &[char]) -> (r: bool)
    ensures
        r == seq_contains_seq(s@, nd@),
{
    if nd.len() > s.len() {
        return false;
    }
    let last = s.len() - nd.len();
    let mut i: usize = 0;
    loop
        invariant
            nd.len() <= s.len(),
            last == s.len() - nd.len(),
            i <= last,
            forall|j: int| 0 <= j < i ==> #[trigger] s@.subrange(j, j + nd.len()) != nd@,
        ensures
            forall|j: int| 0 <= j <= last ==> #[trigger] s@.subrange(j, j + nd.len()) != nd@,
        decreases last - i,
    {
        if matches_at(nd, s, i) {
            return true;
        }
        if i == last {
            break;
        }
        i += 1;
    }
    false
}

/// `s` with every occurrence of `pat` (non-empty), left to right, replaced
/// by `rep`.
pub open spec fn replace_all(s: Seq<char>, pat: Seq<char>, rep: Seq<char>) -> Seq<char>
    decreases s.len(),
{
    if s.len() == 0 || pat.len() == 0 {
        s
    } else if pat.len() <= s.len() && s.take(pat.len() as int) == pat {
        rep + replace_all(s.skip(pat.len() as int), pat, rep)
    } else {
        seq![s[0]] + replace_all(s.drop_first(), pat, rep)
    }
}

/// The characters `s` with every occurrence of `pat`, left to right and
/// without overlap, replaced by `rep`.
pub fn replace_chars(s: &[char], pat: &[char], rep: &[char]) -> (r: Vec<char>)
    ensures
        r@ == replace_all(s@, pat@, rep@),
{
    let mut out: Vec<char> = Vec::new();
    if pat.len() == 0 {
        let r = vec_from_range(s, 0, s.len());
        assert(s@.subrange(0, s.len() as int) =~= s@);
        return r;
    }
    let mut i: usize = 0;
    assert(s@.skip(0) =~= s@);
    while i < s.len()
        invariant
            pat@.len() > 0,
            i <= s@.len(),
            out@ + replace_all(s@.skip(i as int), pat@, rep@) == replace_all(s@, pat@, rep@),
        decreases s@.len() - i,
    {
        let ghost rest = s@.skip(i as int);
        if matches_at(pat, s, i) {
            let ghost before = out@;
            let mut k: usize = 0;
            while k < rep.len()
                invariant
                    k <= rep.len(),
                    out@ == before + rep@.take(k as int),
                decreases rep.len() - k,
            {
                out.push(rep[k]);
                assert(rep@.take(k + 1) =~= rep@.take(k as int).push(rep@[k as int]));
                k += 1;
            }
            proof {
                assert(rep@.take(rep.len() as int) =~= rep@);
                assert(rest.take(pat@.len() as int) =~= s@.subrange(i as int, i + pat@.len()));
                assert(rest.skip(pat@.len() as int) =~= s@.skip(i + pat@.len()));
                assert(out@ + replace_all(s@.skip(i + pat@.len()), pat@, rep@) =~= before + (rep@
                    + replace_all(rest.skip(pat@.len() as int), pat@, rep@)));
            }
            i += pat.len();
        } else {
            let ghost before = out@;
            out.push(s[i]);
            proof {
                if pat@.len() <= rest.len() {
                    assert(rest.take(pat@.len() as int) =~= s@.subrange(i as int, i + pat@.len()));
                }
                assert(rest.drop_first() =~= s@.skip(i + 1));
                assert(out@ + replace_all(s@.skip(i + 1), pat@, rep@) =~= before + (seq![rest[0]]
                    + replace_all(rest.drop_first(), pat@, rep@)));
            }
            i += 1;
        }
    }
    assert(s@.skip(s@.len() as int) =~= Seq::<char>::empty());
    assert(out@ + Seq::<char>::empty() =~= out@);
    out
}


/// Katakana conversion moves exactly the hiragana letters U+3041..=U+3096
/// up by 0x60 and keeps every other character, so no character of
/// U+3041..=U+3096 is left in its result.
pub proof fn law_katakana_shift(s: Seq<char>)
    ensures
        to_katakana_seq(s).len() == s.len(),
        forall|i: int| 0 <= i < s.len() && 0x3041 <= (s[i] as u32) <= 0x3096 ==> (#[trigger] to_katakana_seq(s)[i]) as u32
            == (s[i] as u32) + 0x60,
        forall|i: int| 0 <= i < s.len() && !(0x3041 <= (s[i] as u32) <= 0x3096) ==> #[trigger] to_katakana_seq(s)[i] == s[i],
        forall|i: int| 0 <= i < s.len() ==> !(0x3041 <= (#[trigger] to_katakana_seq(s)[i] as u32) <= 0x3096),
{
    assert forall|i: int| 0 <= i < s.len() && 0x3041 <= (s[i] as u32) <= 0x3096 implies (#[trigger] to_katakana_seq(
        s,
    )[i]) as u32 == (s[i] as u32) + 0x60 by {
        let c = s[i];
        let k = ((c as u32) + 0x60) as char;
        assert(k as u32 == (c as u32) + 0x60);
    }
}

/// Hiragana conversion moves exactly the katakana letters U+30A1..=U+30F6
/// down by 0x60 and keeps every other character, so no character of
/// U+30A1..=U+30F6 is left in its result.
pub proof fn law_hiragana_shift(s: Seq<char>)
    ensures
        to_hiragana_seq(s).len() == s.len(),
        forall|i: int| 0 <= i < s.len() && 0x30A1 <= (s[i] as u32) <= 0x30F6 ==> (#[trigger] to_hiragana_seq(s)[i]) as u32
            == (s[i] as u32) - 0x60,
        forall|i: int| 0 <= i < s.len() && !(0x30A1 <= (s[i] as u32) <= 0x30F6) ==> #[trigger] to_hiragana_seq(s)[i] == s[i],
        forall|i: int| 0 <= i < s.len() ==> !(0x30A1 <= (#[trigger] to_hiragana_seq(s)[i] as u32) <= 0x30F6),
{
    assert forall|i: int| 0 <= i < s.len() && 0x30A1 <= (s[i] as u32) <= 0x30F6 implies (#[trigger] to_hiragana_seq(
        s,
    )[i]) as u32 == (s[i] as u32) - 0x60 by {
        let c = s[i];
        let k = ((c as u32) - 0x60) as char;
        assert(k as u32 == (c as u32) - 0x60);
    }
}

/// Turning hiragana into katakana and back gives the text again, as long as
/// it held no katakana to begin with.
pub proof fn law_kana_round_trip(s: Seq<char>)
    requires
        forall|i: int| 0 <= i < s.len() ==> !is_katakana_letter(#[trigger] s[i]),
    ensures
        to_hiragana_seq(to_katakana_seq(s)) == s,
{
    assert forall|i: int| 0 <= i < s.len() implies #[trigger] to_hiragana_seq(to_katakana_seq(s))[i] == s[i] by {
        let c = s[i];
        if is_hiragana_letter(c) {
            let k = ((c as u32) + 0x60) as char;
            assert(k as u32 == (c as u32) + 0x60);
            assert(((k as u32 - 0x60) as char) == c) by {
                vstd::utf8::char_u32_cast(c, c as u32);
            }
        }
    }
    assert(to_hiragana_seq(to_katakana_seq(s)) =~= s);
}
} // verus!
