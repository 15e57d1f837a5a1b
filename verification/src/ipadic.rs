//! Reading the sources of the system dictionary: the word lists of the IPA
//! dictionary (CSV, in UTF-8 or EUC-JP), its connection matrix, and the
//! supplementary word list of readings and surfaces.

use vstd::prelude::*;
use crate::dictionary::{Dictionary, WordEntry, WordSpec, ConnectionMatrix, PosId, entries_view};
use crate::text::{chars_of, string_from_chars, to_hiragana_seq, seq_starts_with, starts_with_str, katakana_to_hiragana_chars, chars_eq};
use crate::scoring::{all_kana_reading, is_all_hiragana};
use crate::llm::{is_ws, trim_ws, is_digit, decimal_value, all_digits};
use crate::fuzzy::append_chars;

verus! {

/// `s` cut at every `sep`: the pieces in order, empty ones included.
pub open spec fn split_by(s: Seq<char>, sep: char) -> Seq<Seq<char>>
    decreases s.len(),
{
    if s.len() == 0 {
        seq![Seq::empty()]
    } else {
        let prev = split_by(s.drop_last(), sep);
        if s.last() == sep {
            prev.push(Seq::empty())
        } else {
            prev.update(prev.len() - 1, prev.last().push(s.last()))
        }
    }
}

proof fn lemma_split_nonempty(s: Seq<char>, sep: char)
    ensures
        split_by(s, sep).len() >= 1,
    decreases s.len(),
{
    if s.len() > 0 {
        lemma_split_nonempty(s.drop_last(), sep);
    }
}

/// Cuts `cs` at every `sep`.
pub fn split_chars(cs: &Vec<char>, sep: char) -> (r: Vec<Vec<char>>)
    ensures
        r@.len() == split_by(cs@, sep).len(),
        forall|k: int| 0 <= k < r@.len() ==> (#[trigger] r@[k])@ == split_by(cs@, sep)[k],
{
    let mut out: Vec<Vec<char>> = Vec::new();
    let mut cur: Vec<char> = Vec::new();
    let mut i: usize = 0;
    assert(cs@.take(0) =~= Seq::<char>::empty());
    while i < cs.len()
        invariant
            i <= cs@.len(),
            out@.len() + 1 == split_by(cs@.take(i as int), sep).len(),
            forall|k: int| 0 <= k < out@.len() ==> (#[trigger] out@[k])@ == split_by(cs@.take(i as int), sep)[k],
            cur@ == split_by(cs@.take(i as int), sep).last(),
        decreases cs@.len() - i,
    {
        let ghost prev = split_by(cs@.take(i as int), sep);
        proof {
            lemma_split_nonempty(cs@.take(i as int), sep);
        }
        assert(cs@.take(i + 1).drop_last() =~= cs@.take(i as int));
        assert(cs@.take(i + 1).last() == cs@[i as int]);
        if cs[i] == sep {
            let done = cur;
            out.push(done);
            cur = Vec::new();
            assert(cur@ =~= Seq::<char>::empty());
        } else {
            cur.push(cs[i]);
            assert forall|k: int| 0 <= k < out@.len() implies (#[trigger] out@[k])@ == split_by(cs@.take(i + 1), sep)[k] by {
                assert(split_by(cs@.take(i + 1), sep)[k] == prev[k]);
            }
        }
        i += 1;
    }
    out.push(cur);
    assert(cs@.take(cs@.len() as int) =~= cs@);
    out
}

/// The sign and the digits of a signed number: `(negative, digits)`.
pub open spec fn signed_parts(s: Seq<char>) -> (bool, Seq<char>) {
    if s.len() > 0 && s[0] == '-' {
        (true, s.drop_first())
    } else if s.len() > 0 && s[0] == '+' {
        (false, s.drop_first())
    } else {
        (false, s)
    }
}

/// The 16-bit signed number `s` spells: an optional sign and at least one
/// decimal digit, of a value in range.
pub open spec fn parsed_i16(s: Seq<char>) -> Option<i16> {
    let (neg, t) = signed_parts(s);
    if t.len() == 0 || !all_digits(t) {
        None
    } else if neg {
        if decimal_value(t) > 0x8000 {
            None
        } else {
            Some((0 - decimal_value(t)) as i16)
        }
    } else if decimal_value(t) > 0x7FFF {
        None
    } else {
        Some(decimal_value(t) as i16)
    }
}

/// The 16-bit unsigned number `s` spells: an optional plus sign and at
/// least one decimal digit, of a value in range.
pub open spec fn parsed_u16(s: Seq<char>) -> Option<u16> {
    let t = if s.len() > 0 && s[0] == '+' { s.drop_first() } else { s };
    if t.len() == 0 || !all_digits(t) || decimal_value(t) > 0xFFFF {
        None
    } else {
        Some(decimal_value(t) as u16)
    }
}

proof fn lemma_decimal_prefix_le(t: Seq<char>, k: int)
    requires
        0 <= k <= t.len(),
        all_digits(t),
    ensures
        decimal_value(t.take(k)) <= decimal_value(t),
    decreases t.len() - k,
{
    if k < t.len() {
        lemma_decimal_prefix_le(t, k + 1);
        assert(t.take(k + 1).drop_last() =~= t.take(k));
    } else {
        assert(t.take(k) =~= t);
    }
}

/// Value of the digits `cs[from..]` if they are all digits, there is at
/// least one, and the value is at most `cap`.
fn digits_value(cs: &Vec<char>, from: usize, cap: u64) -> (r: Option<u64>)
    requires
        from <= cs@.len(),
        cap <= 0x1_0000,
    ensures
        ({
            let t = cs@.skip(from as int);
            match r {
                Some(v) => t.len() > 0 && all_digits(t) && v == decimal_value(t) && v <= cap,
                None => t.len() == 0 || !all_digits(t) || decimal_value(t) > cap,
            }
        }),
{
    let ghost t = cs@.skip(from as int);
    if cs.len() == from {
        return None;
    }
    let mut i: usize = from;
    while i < cs.len()
        invariant
            from <= i <= cs@.len(),
            t == cs@.skip(from as int),
            forall|j: int| from <= j < i ==> is_digit(#[trigger] cs@[j]),
        decreases cs@.len() - i,
    {
        if !('0' <= cs[i] && cs[i] <= '9') {
            assert(t[i - from] == cs@[i as int]);
            assert(!all_digits(t));
            return None;
        }
        i += 1;
    }
    assert(all_digits(t)) by {
        assert forall|j: int| 0 <= j < t.len() implies is_digit(#[trigger] t[j]) by {
            assert(t[j] == cs@[from + j]);
        }
    }
    let mut v: u64 = 0;
    let mut k: usize = from;
    while k < cs.len()
        invariant
            from <= k <= cs@.len(),
            t == cs@.skip(from as int),
            all_digits(t),
            cap <= 0x1_0000,
            v == decimal_value(t.take(k - from)),
            v <= cap,
        decreases cs@.len() - k,
    {
        proof {
            assert(t[k - from] == cs@[k as int]);
            assert(is_digit(t[k - from]));
            assert(t.take(k - from + 1).drop_last() =~= t.take(k - from));
            assert(t.take(k - from + 1).last() == cs@[k as int]);
        }
        let d = (cs[k] as u32 - 0x30) as u64;
        let nv = v * 10 + d;
        if nv > cap {
            proof {
                lemma_decimal_prefix_le(t, k - from + 1);
            }
            return None;
        }
        v = nv;
        k += 1;
    }
    assert(t.take(t.len() as int) =~= t);
    Some(v)
}

/// Parses a 16-bit signed decimal number.
pub fn parse_i16(s: &Vec<char>) -> (r: Option<i16>)
    ensures
        r == parsed_i16(s@),
{
    if s.len() > 0 && s[0] == '-' {
        assert(s@.skip(1) =~= s@.drop_first());
        match digits_value(s, 1, 0x8000) {
            Some(v) => Some((0 - (v as i32)) as i16),
            None => None,
        }
    } else if s.len() > 0 && s[0] == '+' {
        assert(s@.skip(1) =~= s@.drop_first());
        match digits_value(s, 1, 0x7FFF) {
            Some(v) => Some(v as i16),
            None => None,
        }
    } else {
        assert(s@.skip(0) =~= s@);
        match digits_value(s, 0, 0x7FFF) {
            Some(v) => Some(v as i16),
            None => None,
        }
    }
}

/// Parses a 16-bit unsigned decimal number.
pub fn parse_u16(s: &Vec<char>) -> (r: Option<u16>)
    ensures
        r == parsed_u16(s@),
{
    let from: usize = if s.len() > 0 && s[0] == '+' {
        1
    } else {
        0
    };
    assert(s@.skip(from as int) =~= (if s@.len() > 0 && s@[0] == '+' { s@.drop_first() } else { s@ }));
    match digits_value(s, from, 0xFFFF) {
        Some(v) => Some(v as u16),
        None => None,
    }
}

/// The word of one line of an IPA dictionary CSV: surface, ids, cost, four
/// part-of-speech fields and the katakana reading in field 11. Lines with
/// fewer than 13 fields or unreadable numbers give nothing; so do words
/// whose reading is not kana, and kana spellings of a reading that are not
/// nouns.
pub open spec fn csv_entry(line: Seq<char>) -> Option<WordSpec> {
    let p = split_by(line, ',');
    if p.len() < 13 {
        None
    } else {
        match (parsed_u16(p[1]), parsed_u16(p[2]), parsed_i16(p[3])) {
            (Some(l), Some(r), Some(c)) => {
                let pos = p[4] + "-"@ + p[5] + "-"@ + p[6] + "-"@ + p[7];
                let reading = to_hiragana_seq(p[11]);
                let surface = p[0];
                if reading.len() == 0 || !all_kana_reading(reading) {
                    None
                } else if surface != reading && to_hiragana_seq(surface) == reading && !seq_starts_with(pos, "名詞"@) {
                    None
                } else {
                    Some(WordSpec { surface, reading, left_id: l, right_id: r, cost: c, pos })
                }
            },
            _ => None,
        }
    }
}

fn push_vec(out: &mut String, v: &Vec<char>)
    ensures
        final(out)@ == old(out)@ + v@,
{
    let s = string_from_chars(v.as_slice());
    append_chars(out, s.as_str());
}

/// Parses one line of an IPA dictionary CSV.
pub fn parse_csv_line(line: &str) -> (r: Option<WordEntry>)
    ensures
        match r {
            Some(e) => csv_entry(line@) == Some(e@),
            None => csv_entry(line@) is None,
        },
{
    let cs = chars_of(line);
    let parts = split_chars(&cs, ',');
    if parts.len() < 13 {
        return None;
    }
    let left_id = match parse_u16(&parts[1]) {
        Some(v) => v,
        None => {
            return None;
        },
    };
    let right_id = match parse_u16(&parts[2]) {
        Some(v) => v,
        None => {
            return None;
        },
    };
    let cost = match parse_i16(&parts[3]) {
        Some(v) => v,
        None => {
            return None;
        },
    };
    let mut pos = String::new();
    push_vec(&mut pos, &parts[4]);
    append_chars(&mut pos, "-");
    push_vec(&mut pos, &parts[5]);
    append_chars(&mut pos, "-");
    push_vec(&mut pos, &parts[6]);
    append_chars(&mut pos, "-");
    push_vec(&mut pos, &parts[7]);
    let reading_chars = katakana_to_hiragana_chars(parts[11].as_slice());
    if reading_chars.len() == 0 || !is_all_hiragana(reading_chars.as_slice()) {
        return None;
    }
    let surface_h = katakana_to_hiragana_chars(parts[0].as_slice());
    let pos_chars = chars_of(pos.as_str());
    if !chars_eq(parts[0].as_slice(), reading_chars.as_slice()) && chars_eq(surface_h.as_slice(), reading_chars.as_slice())
        && !starts_with_str(pos_chars.as_slice(), "名詞") {
        return None;
    }
    let e = WordEntry {
        surface: string_from_chars(parts[0].as_slice()),
        reading: string_from_chars(reading_chars.as_slice()),
        left_id,
        right_id,
        cost,
        pos,
    };
    assert(e@.pos == split_by(line@, ',')[4] + "-"@ + split_by(line@, ',')[5] + "-"@ + split_by(line@, ',')[6] + "-"@ + split_by(line@, ',')[7]);
    Some(e)
}

/// The entries of the lines `ls[..n]` that parse.
pub open spec fn csv_entries(ls: Seq<Seq<char>>, n: nat) -> Seq<WordSpec>
    decreases n,
{
    if n == 0 || n > ls.len() {
        Seq::empty()
    } else {
        csv_entries(ls, (n - 1) as nat) + match csv_entry(ls[n - 1]) {
            Some(e) => seq![e],
            None => Seq::empty(),
        }
    }
}

/// The words of an IPA dictionary CSV text, line by line.
pub open spec fn csv_words(text: Seq<char>) -> Seq<WordSpec> {
    csv_entries(split_by(text, '\n'), split_by(text, '\n').len())
}

/// Parses every line of an IPA dictionary CSV text and keeps the words.
pub fn parse_csv_text(text: &str) -> (r: Vec<WordEntry>)
    ensures
        entries_view(r@) == csv_words(text@),
{
    let cs = chars_of(text);
    let lines = split_chars(&cs, '\n');
    let ghost ls = split_by(text@, '\n');
    let mut out: Vec<WordEntry> = Vec::new();
    let mut k: usize = 0;
    while k < lines.len()
        invariant
            cs@ == text@,
            ls == split_by(text@, '\n'),
            lines@.len() == ls.len(),
            forall|j: int| 0 <= j < lines@.len() ==> (#[trigger] lines@[j])@ == ls[j],
            k <= lines@.len(),
            entries_view(out@) == csv_entries(ls, k as nat),
        decreases lines@.len() - k,
    {
        let s = string_from_chars(lines[k].as_slice());
        let ghost before = entries_view(out@);
        match parse_csv_line(s.as_str()) {
            Some(e) => {
                out.push(e);
                assert(entries_view(out@) =~= before.push(out@[out@.len() - 1]@));
            },
            None => {},
        }
        proof {
            assert(lines@[k as int]@ == ls[k as int]);
            assert(entries_view(out@) =~= csv_entries(ls, (k + 1) as nat));
        }
        k += 1;
    }
    out
}

/// What decoding `bytes` as EUC-JP gives: the text and whether some bytes
/// could not be decoded.
pub uninterp spec fn euc_jp_decoded(bytes: Seq<u8>) -> (Seq<char>, bool);

/// Decodes EUC-JP bytes (encoding_rs's `Encoding::decode` on `EUC_JP`,
/// which replaces undecodable bytes and reports that it did).
#[verifier::external_body]
fn euc_jp_decode(bytes: &[u8]) -> (r: (String, bool))
    ensures
        (r.0@, r.1) == euc_jp_decoded(bytes@),
{
    let (text, _, had_errors) = encoding_rs::EUC_JP.decode(bytes);
    (text.into_owned(), had_errors)
}

/// The words of an IPA dictionary CSV file in EUC-JP, and whether some
/// bytes could not be decoded.
pub fn parse_euc_jp_csv(bytes: &[u8]) -> (r: (Vec<WordEntry>, bool))
    ensures
        entries_view(r.0@) == csv_words(euc_jp_decoded(bytes@).0),
        r.1 == euc_jp_decoded(bytes@).1,
{
    let (text, had_errors) = euc_jp_decode(bytes);
    (parse_csv_text(text.as_str()), had_errors)
}

/// The white-space separated tokens of `s[i..]`, `cur` being the token in
/// progress.
pub open spec fn tokens_from(s: Seq<char>, i: int, cur: Seq<char>) -> Seq<Seq<char>>
    decreases s.len() - i,
{
    if i >= s.len() || i < 0 {
        if cur.len() > 0 {
            seq![cur]
        } else {
            Seq::empty()
        }
    } else if is_ws(s[i]) {
        (if cur.len() > 0 {
            seq![cur]
        } else {
            Seq::empty()
        }) + tokens_from(s, i + 1, Seq::empty())
    } else {
        tokens_from(s, i + 1, cur.push(s[i]))
    }
}

/// The white-space separated tokens of `s`.
pub open spec fn tokens(s: Seq<char>) -> Seq<Seq<char>> {
    tokens_from(s, 0, Seq::empty())
}

/// Splits at white space.
pub fn split_tokens(cs: &Vec<char>) -> (r: Vec<Vec<char>>)
    ensures
        r@.len() == tokens(cs@).len(),
        forall|k: int| 0 <= k < r@.len() ==> (#[trigger] r@[k])@ == tokens(cs@)[k],
{
    let mut out: Vec<Vec<char>> = Vec::new();
    let mut cur: Vec<char> = Vec::new();
    let mut i: usize = 0;
    while i < cs.len()
        invariant
            i <= cs@.len(),
            tokens(cs@) == out@.map_values(|v: Vec<char>| v@) + tokens_from(cs@, i as int, cur@),
        decreases cs@.len() - i,
    {
        let ghost before = out@.map_values(|v: Vec<char>| v@);
        let c = cs[i];
        let u = c as u32;
        let ws = (0x09 <= u && u <= 0x0D) || u == 0x20 || u == 0x85 || u == 0xA0 || u == 0x1680 || (0x2000 <= u && u <= 0x200A)
            || u == 0x2028 || u == 0x2029 || u == 0x202F || u == 0x205F || u == 0x3000;
        if ws {
            if cur.len() > 0 {
                let done = cur;
                out.push(done);
                assert(out@.map_values(|v: Vec<char>| v@) =~= before + seq![done@]);
            } else {
                assert(out@.map_values(|v: Vec<char>| v@) =~= before + Seq::<Seq<char>>::empty());
            }
            cur = Vec::new();
            assert(cur@ =~= Seq::<char>::empty());
        } else {
            cur.push(c);
        }
        i += 1;
    }
    let ghost before = out@.map_values(|v: Vec<char>| v@);
    if cur.len() > 0 {
        let done = cur;
        out.push(done);
        assert(out@.map_values(|v: Vec<char>| v@) =~= before + seq![done@]);
    } else {
        assert(out@.map_values(|v: Vec<char>| v@) =~= before + Seq::<Seq<char>>::empty());
    }
    assert forall|k: int| 0 <= k < out@.len() implies (#[trigger] out@[k])@ == tokens(cs@)[k] by {
        assert(out@.map_values(|v: Vec<char>| v@)[k] == out@[k]@);
    }
    out
}

/// The numbers among `ts[..n]` that read as 16-bit unsigned numbers.
pub open spec fn u16_tokens(ts: Seq<Seq<char>>, n: nat) -> Seq<u16>
    decreases n,
{
    if n == 0 || n > ts.len() {
        Seq::empty()
    } else {
        u16_tokens(ts, (n - 1) as nat) + match parsed_u16(ts[n - 1]) {
            Some(v) => seq![v],
            None => Seq::empty(),
        }
    }
}

/// The sizes on the first line of a matrix file: the first two tokens that
/// read as 16-bit unsigned numbers.
pub open spec fn matrix_sizes(line: Seq<char>) -> Option<(u16, u16)> {
    let ns = u16_tokens(tokens(line), tokens(line).len());
    if ns.len() < 2 {
        None
    } else {
        Some((ns[0], ns[1]))
    }
}

/// Reads the sizes from the first line of a matrix file.
pub fn parse_matrix_header(line: &Vec<char>) -> (r: Option<(u16, u16)>)
    ensures
        r == matrix_sizes(line@),
{
    let ts = split_tokens(line);
    let ghost tv = tokens(line@);
    let mut ns: Vec<u16> = Vec::new();
    let mut k: usize = 0;
    while k < ts.len()
        invariant
            ts@.len() == tv.len(),
            tv == tokens(line@),
            forall|j: int| 0 <= j < ts@.len() ==> (#[trigger] ts@[j])@ == tv[j],
            k <= ts@.len(),
            ns@ == u16_tokens(tv, k as nat),
        decreases ts@.len() - k,
    {
        let ghost before = ns@;
        match parse_u16(&ts[k]) {
            Some(v) => {
                ns.push(v);
            },
            None => {},
        }
        assert(ts@[k as int]@ == tv[k as int]);
        assert(ns@ =~= u16_tokens(tv, (k + 1) as nat));
        k += 1;
    }
    if ns.len() < 2 {
        None
    } else {
        Some((ns[0], ns[1]))
    }
}

/// A connection cost line of a matrix file: the previous word's right id,
/// the next word's left id and the cost, when the first three tokens read
/// as such.
pub open spec fn matrix_cell(line: Seq<char>) -> Option<(u16, u16, i16)> {
    let ts = tokens(line);
    if ts.len() < 3 {
        None
    } else {
        match (parsed_u16(ts[0]), parsed_u16(ts[1]), parsed_i16(ts[2])) {
            (Some(a), Some(b), Some(c)) => Some((a, b, c)),
            _ => None,
        }
    }
}

/// Reads a connection cost line of a matrix file.
pub fn parse_matrix_line(line: &Vec<char>) -> (r: Option<(u16, u16, i16)>)
    ensures
        r == matrix_cell(line@),
{
    let ts = split_tokens(line);
    if ts.len() < 3 {
        return None;
    }
    match (parse_u16(&ts[0]), parse_u16(&ts[1]), parse_i16(&ts[2])) {
        (Some(a), Some(b), Some(c)) => Some((a, b, c)),
        _ => None,
    }
}

/// Why a matrix file could not be read.
#[derive(PartialEq, Eq, Structural, Clone, Copy, Debug)]
pub enum MatrixError {
    /// The file is empty.
    Empty,
    /// The first line does not hold two sizes.
    BadHeader,
}

/// The connection matrix of a matrix file's text: the sizes of the first
/// line, zero costs, then each line's cost set in order.
pub fn matrix_from_text(text: &str) -> (r: Result<ConnectionMatrix, MatrixError>)
    ensures
        match r {
            Ok(m) => text@.len() > 0 && matrix_sizes(split_by(text@, '\n')[0]) == Some((m.left_size, m.right_size))
                && m.costs@.len() == m.left_size * m.right_size
                && forall|k: int| 0 <= k < m.costs@.len() ==> #[trigger] m.costs@[k] == matrix_cell_value(m.left_size, m.right_size, split_by(text@, '\n'), k),
            Err(e) => (e == MatrixError::Empty && text@.len() == 0) || (e == MatrixError::BadHeader && text@.len() > 0
                && matrix_sizes(split_by(text@, '\n')[0]) is None),
        },
{
    let cs = chars_of(text);
    if cs.len() == 0 {
        return Err(MatrixError::Empty);
    }
    let lines = split_chars(&cs, '\n');
    let ghost ls = split_by(text@, '\n');
    proof {
        lemma_split_nonempty(text@, '\n');
    }
    let (left, right) = match parse_matrix_header(&lines[0]) {
        Some(p) => p,
        None => {
            return Err(MatrixError::BadHeader);
        },
    };
    let mut m = ConnectionMatrix::new(left, right);
    let mut k: usize = 1;
    while k < lines.len()
        invariant
            lines@.len() == ls.len(),
            ls == split_by(text@, '\n'),
            forall|j: int| 0 <= j < lines@.len() ==> (#[trigger] lines@[j])@ == ls[j],
            1 <= k <= lines@.len(),
            m.left_size == left,
            m.right_size == right,
            m.costs@.len() == left * right,
            forall|q: int| 0 <= q < m.costs@.len() ==> #[trigger] m.costs@[q] == cell_after(left, right, ls, k as nat, q),
        decreases lines@.len() - k,
    {
        match parse_matrix_line(&lines[k]) {
            Some((a, b, c)) => {
                m.set(a, b, c);
            },
            None => {},
        }
        assert(lines@[k as int]@ == ls[k as int]);
        k += 1;
    }
    Ok(m)
}

/// The cost in cell `q` after the cost lines `ls[1..n]`: that of the last
/// line that sets it, else 0.
pub open spec fn cell_after(left: u16, right: u16, ls: Seq<Seq<char>>, n: nat, q: int) -> i16
    decreases n,
{
    if n <= 1 || n > ls.len() {
        0
    } else {
        match matrix_cell(ls[n - 1]) {
            Some((a, b, c)) => if b * left + a == q && q < left * right {
                c
            } else {
                cell_after(left, right, ls, (n - 1) as nat, q)
            },
            None => cell_after(left, right, ls, (n - 1) as nat, q),
        }
    }
}

/// The cost in cell `q` of the matrix of a whole file.
pub open spec fn matrix_cell_value(left: u16, right: u16, ls: Seq<Seq<char>>, q: int) -> i16 {
    cell_after(left, right, ls, ls.len(), q)
}

/// A line of the supplementary word list, `reading,surface[,cost]`, with
/// the cost 4000 when absent or unreadable; blank lines and `#` comments
/// give nothing.
pub open spec fn extra_line(line: Seq<char>) -> Option<(Seq<char>, Seq<char>, i16)> {
    let t = trim_ws(line);
    if t.len() == 0 || seq_starts_with(t, "#"@) {
        None
    } else {
        let cols = split_by(t, ',');
        if cols.len() < 2 || trim_ws(cols[0]).len() == 0 || trim_ws(cols[1]).len() == 0 {
            None
        } else {
            let cost = if cols.len() > 2 {
                match parsed_i16(trim_ws(cols[2])) {
                    Some(c) => c,
                    None => 4000,
                }
            } else {
                4000
            };
            Some((trim_ws(cols[0]), trim_ws(cols[1]), cost))
        }
    }
}

fn trim_chars(v: &Vec<char>) -> (r: Vec<char>)
    ensures
        r@ == trim_ws(v@),
{
    let s = string_from_chars(v.as_slice());
    crate::llm::trim_text(s.as_str())
}

/// Reads one line of the supplementary word list.
pub fn parse_extra_line(line: &str) -> (r: Option<(String, String, i16)>)
    ensures
        match r {
            Some((a, b, c)) => extra_line(line@) == Some((a@, b@, c)),
            None => extra_line(line@) is None,
        },
{
    let t = crate::llm::trim_text(line);
    if t.len() == 0 || starts_with_str(t.as_slice(), "#") {
        return None;
    }
    let cols = split_chars(&t, ',');
    if cols.len() < 2 {
        return None;
    }
    let reading = trim_chars(&cols[0]);
    let surface = trim_chars(&cols[1]);
    if reading.len() == 0 || surface.len() == 0 {
        return None;
    }
    let cost = if cols.len() > 2 {
        let c = trim_chars(&cols[2]);
        match parse_i16(&c) {
            Some(v) => v,
            None => 4000,
        }
    } else {
        4000
    };
    Some((string_from_chars(reading.as_slice()), string_from_chars(surface.as_slice()), cost))
}

/// The word a supplementary line adds: a common noun (context id 1285).
pub open spec fn extra_word(r: Seq<char>, s: Seq<char>, c: i16) -> WordSpec {
    WordSpec { surface: s, reading: r, left_id: 1285, right_id: 1285, cost: c, pos: "名詞-一般-*-*"@ }
}

/// The words of the lines `ls[..n]` of a supplementary list.
pub open spec fn extra_words(ls: Seq<Seq<char>>, n: nat) -> Seq<WordSpec>
    decreases n,
{
    if n == 0 || n > ls.len() {
        Seq::empty()
    } else {
        extra_words(ls, (n - 1) as nat) + match extra_line(ls[n - 1]) {
            Some((r, s, c)) => seq![extra_word(r, s, c)],
            None => Seq::empty(),
        }
    }
}

/// The words of a supplementary word list, in order.
pub fn parse_extra_words(text: &str) -> (r: Vec<WordEntry>)
    ensures
        entries_view(r@) == extra_words(split_by(text@, '\n'), split_by(text@, '\n').len()),
{
    let cs = chars_of(text);
    let lines = split_chars(&cs, '\n');
    let ghost ls = split_by(text@, '\n');
    let mut out: Vec<WordEntry> = Vec::new();
    let mut k: usize = 0;
    while k < lines.len()
        invariant
            ls == split_by(text@, '\n'),
            lines@.len() == ls.len(),
            forall|j: int| 0 <= j < lines@.len() ==> (#[trigger] lines@[j])@ == ls[j],
            k <= lines@.len(),
            entries_view(out@) == extra_words(ls, k as nat),
        decreases lines@.len() - k,
    {
        let s = string_from_chars(lines[k].as_slice());
        let ghost before = entries_view(out@);
        match parse_extra_line(s.as_str()) {
            Some((reading, surface, cost)) => {
                out.push(WordEntry { surface, reading, left_id: 1285, right_id: 1285, cost, pos: "名詞-一般-*-*".to_owned() });
                assert(entries_view(out@) =~= before.push(out@[out@.len() - 1]@));
            },
            None => {},
        }
        proof {
            assert(lines@[k as int]@ == ls[k as int]);
            assert(entries_view(out@) =~= extra_words(ls, (k + 1) as nat));
        }
        k += 1;
    }
    out
}

} // verus!
