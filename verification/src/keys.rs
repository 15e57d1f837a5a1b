//! Small decisions of the keyboard front end and the command line: keys to
//! characters, commit and toggle keys, candidate pages, labels, learning
//! guards, vowel completions and UTF-16 text.

use vstd::prelude::*;
use crate::dictionary::WordEntry;
use crate::text::{chars_of, chars_eq, to_katakana_seq, seq_starts_with, starts_with_str, hiragana_to_katakana, katakana_to_hiragana};
use crate::scoring::is_kanji;
use crate::romaji::RomajiConverter;

verus! {

/// The kind of a conversion candidate.
#[derive(PartialEq, Eq, Structural, Clone, Copy, Debug)]
pub enum CandidateKind {
    /// Kanji conversion.
    KanjiConversion,
    /// Katakana conversion.
    KatakanaConversion,
    /// Prediction.
    Prediction,
    /// Spelling correction.
    TypoCorrection,
    /// User dictionary word.
    UserDictionary,
    /// The kana as typed.
    RawKana,
}

/// Short label of a candidate kind.
pub fn kind_label(kind: &CandidateKind) -> (r: &'static str)
    ensures
        r@ == match *kind {
            CandidateKind::KanjiConversion => "漢字"@,
            CandidateKind::KatakanaConversion => "カナ"@,
            CandidateKind::Prediction => "予測"@,
            CandidateKind::TypoCorrection => "補正"@,
            CandidateKind::UserDictionary => "ユ辞"@,
            CandidateKind::RawKana => "かな"@,
        },
{
    match kind {
        CandidateKind::KanjiConversion => "漢字",
        CandidateKind::KatakanaConversion => "カナ",
        CandidateKind::Prediction => "予測",
        CandidateKind::TypoCorrection => "補正",
        CandidateKind::UserDictionary => "ユ辞",
        CandidateKind::RawKana => "かな",
    }
}

/// Label of the run-on-Enter setting of a command alias.
pub fn autorun_label(auto_run: bool) -> (r: &'static str)
    ensures
        r@ == (if auto_run { "即実行"@ } else { "✎挿入のみ"@ }),
{
    if auto_run {
        "即実行"
    } else {
        "✎挿入のみ"
    }
}

/// Characters that commit the conversion when typed.
pub fn is_commit_char(ch: char) -> (r: bool)
    ensures
        r == (ch == ',' || ch == '.' || ch == '?' || ch == '!'),
{
    ch == ',' || ch == '.' || ch == '?' || ch == '!'
}

/// Virtual-key codes of the keys that switch the input mode (kanji key,
/// full-width and half-width keys).
pub fn is_ime_toggle_vk(vk: u32) -> (r: bool)
    ensures
        r == (vk == 0x19 || vk == 0xF3 || vk == 0xF4),
{
    vk == 0x19 || vk == 0xF3 || vk == 0xF4
}

/// Number of candidates on one page of the candidate list.
pub const CANDIDATE_PAGE_SIZE: usize = 9;

/// Height of one line of the candidate list, in pixels.
pub const CANDIDATE_LINE_HEIGHT: i32 = 24;

/// First index of the page that holds `selected`.
pub fn candidate_page_start(selected: usize) -> (r: usize)
    ensures
        r == (selected / 9) * 9,
        r <= selected < r + 9,
{
    (selected / CANDIDATE_PAGE_SIZE) * CANDIDATE_PAGE_SIZE
}

/// A rectangle in client coordinates.
#[derive(PartialEq, Eq, Structural, Clone, Copy, Debug)]
pub struct Rect {
    pub left: i32,
    pub top: i32,
    pub right: i32,
    pub bottom: i32,
}

/// Rectangle of the settings button at the top right of the command popup.
pub fn command_settings_button_rect(rc_client: &Rect) -> (r: Rect)
    requires
        rc_client.right >= i32::MIN + 90,
    ensures
        r.left == rc_client.right - 90,
        r.top == 5,
        r.right == rc_client.right - 6,
        r.bottom == 27,
{
    let right = rc_client.right - 6;
    let left = right - 84;
    Rect { left, top: 5, right, bottom: 5 + CANDIDATE_LINE_HEIGHT - 2 }
}

/// Where and how large the candidate popup is drawn, in screen coordinates.
#[derive(PartialEq, Eq, Structural, Clone, Copy, Debug)]
pub struct PopupPlacement {
    pub x: i32,
    pub y: i32,
    pub width: i32,
    pub height: i32,
}

/// Width of a popup whose longest line has `max_len_chars` characters:
/// 16 pixels a character, four characters and 24 pixels of margin, at most 640.
pub open spec fn popup_width(max_len_chars: nat) -> int {
    let w: int = (max_len_chars as int + 4) * 16 + 24;
    if w < 640 { w } else { 640 }
}

/// Height of a popup of `line_count` lines before it is fitted to the work area.
pub open spec fn popup_natural_height(line_count: int) -> int {
    8 + line_count * 24
}

/// Height of a popup of `line_count` lines, at most the height of the work area.
pub open spec fn popup_height(line_count: int, work: Rect) -> int {
    let nat_h = popup_natural_height(line_count);
    let avail = work.bottom - work.top;
    if nat_h < avail { nat_h } else { avail }
}

/// `v` held between `lo` and `hi` (with `lo <= hi`).
pub open spec fn clamp_int(v: int, lo: int, hi: int) -> int {
    if v < lo { lo } else if v > hi { hi } else { v }
}

/// The placement of the popup near the caret: as high as its lines need but
/// no higher than the work area; just below the caret where it fits there,
/// else just above it; then moved inside the work area.
pub open spec fn popup_spec(
    max_len_chars: nat,
    line_count: int,
    caret_x: int,
    caret_top: int,
    caret_bottom: int,
    work: Rect,
) -> PopupPlacement {
    let width = popup_width(max_len_chars);
    let height = popup_height(line_count, work);
    let below_top = caret_bottom + 2;
    let above_top = caret_top - height - 2;
    let y0 = if below_top + height <= work.bottom { below_top } else { above_top };
    let x_hi = if work.right - width > work.left { work.right - width } else { work.left as int };
    let y_hi = if work.bottom - height > work.top { work.bottom - height } else { work.top as int };
    PopupPlacement {
        x: clamp_int(caret_x, work.left as int, x_hi) as i32,
        y: clamp_int(y0, work.top as int, y_hi) as i32,
        width: width as i32,
        height: height as i32,
    }
}

/// Places the candidate popup for a longest line of `max_len_chars`
/// characters and `line_count` lines, given the caret's left edge, top and
/// bottom and the work area of the monitor under it.
pub fn popup_placement(
    max_len_chars: usize,
    line_count: i32,
    caret_x: i32,
    caret_top: i32,
    caret_bottom: i32,
    work: &Rect,
) -> (r: PopupPlacement)
    requires
        i32::MIN <= popup_natural_height(line_count as int) <= i32::MAX,
        i32::MIN <= work.bottom - work.top <= i32::MAX,
        i32::MIN <= work.right - popup_width(max_len_chars as nat),
        caret_bottom + 2 <= i32::MAX,
        i32::MIN <= caret_top - popup_height(line_count as int, *work) - 2,
        caret_top - popup_height(line_count as int, *work) <= i32::MAX,
        i32::MIN <= caret_bottom + 2 + popup_height(line_count as int, *work) <= i32::MAX,
        i32::MIN <= work.bottom - popup_height(line_count as int, *work) <= i32::MAX,
    ensures
        r == popup_spec(max_len_chars as nat, line_count as int, caret_x as int, caret_top as int,
            caret_bottom as int, *work),
{
    let width: i32 = if max_len_chars >= 35 {
        640
    } else {
        let w: usize = (max_len_chars + 4) * 16 + 24;
        if w < 640 { w as i32 } else { 640 }
    };
    let natural: i32 = 8 + line_count * CANDIDATE_LINE_HEIGHT;
    let avail: i32 = work.bottom - work.top;
    let height: i32 = if natural < avail { natural } else { avail };
    let below_top: i32 = caret_bottom + 2;
    let above_top: i32 = caret_top - height - 2;
    let y0: i32 = if below_top + height <= work.bottom { below_top } else { above_top };
    let x_hi: i32 = if work.right - width > work.left { work.right - width } else { work.left };
    let y_hi: i32 = if work.bottom - height > work.top { work.bottom - height } else { work.top };
    let x: i32 = if caret_x < work.left { work.left } else if caret_x > x_hi { x_hi } else { caret_x };
    let y: i32 = if y0 < work.top { work.top } else if y0 > y_hi { y_hi } else { y0 };
    PopupPlacement { x, y, width, height }
}

/// Character a key gives while typing Japanese: letters (capitals with
/// shift), and the punctuation that becomes Japanese punctuation.
pub open spec fn typing_char(vk: u32, shift: bool) -> Option<char> {
    if 0x41 <= vk && vk <= 0x5A {
        if shift {
            Some((vk as u8) as char)
        } else {
            Some(((vk + 0x20) as u8) as char)
        }
    } else if vk == 0xBC && !shift {
        Some(',')
    } else if vk == 0xBE && !shift {
        Some('.')
    } else if vk == 0xBD && !shift {
        Some('-')
    } else if vk == 0xBF && shift {
        Some('?')
    } else if vk == 0x31 && shift {
        Some('!')
    } else if vk == 0xDB && !shift {
        Some('[')
    } else if vk == 0xDD && !shift {
        Some(']')
    } else {
        None
    }
}

/// The character a key gives while typing Japanese.
pub fn vk_to_char(vk_code: u32, _scan_code: u32, shift_pressed: bool) -> (r: Option<char>)
    ensures
        r == typing_char(vk_code, shift_pressed),
{
    if 0x41 <= vk_code && vk_code <= 0x5A {
        let base: u8 = (vk_code as u8 - 0x41) + 0x61;
        if shift_pressed {
            return Some((base - 32) as char);
        } else {
            return Some(base as char);
        }
    }
    if vk_code == 0xBC && !shift_pressed {
        Some(',')
    } else if vk_code == 0xBE && !shift_pressed {
        Some('.')
    } else if vk_code == 0xBD && !shift_pressed {
        Some('-')
    } else if vk_code == 0xBF && shift_pressed {
        Some('?')
    } else if vk_code == 0x31 && shift_pressed {
        Some('!')
    } else if vk_code == 0xDB && !shift_pressed {
        Some('[')
    } else if vk_code == 0xDD && !shift_pressed {
        Some(']')
    } else {
        None
    }
}

/// The character of a key on a US layout, as a command line shows it.
pub open spec fn ascii_of_key(vk: u32, shift: bool) -> Option<char> {
    if 0x41 <= vk && vk <= 0x5A {
        if shift {
            Some((vk as u8) as char)
        } else {
            Some(((vk + 0x20) as u8) as char)
        }
    } else if 0x30 <= vk && vk <= 0x39 {
        if !shift {
            Some((vk as u8) as char)
        } else if vk == 0x31 { Some('!') }
        else if vk == 0x32 { Some('@') }
        else if vk == 0x33 { Some('#') }
        else if vk == 0x34 { Some('$') }
        else if vk == 0x35 { Some('%') }
        else if vk == 0x36 { Some('^') }
        else if vk == 0x37 { Some('&') }
        else if vk == 0x38 { Some('*') }
        else if vk == 0x39 { Some('(') }
        else { Some(')') }
    } else if 0x60 <= vk && vk <= 0x69 {
        Some(((vk - 0x30) as u8) as char)
    } else if vk == 0x20 {
        Some(' ')
    } else if vk == 0xBC { Some(if shift { '<' } else { ',' }) }
    else if vk == 0xBE { Some(if shift { '>' } else { '.' }) }
    else if vk == 0xBD { Some(if shift { '_' } else { '-' }) }
    else if vk == 0xBB { Some(if shift { '+' } else { '=' }) }
    else if vk == 0xBF { Some(if shift { '?' } else { '/' }) }
    else if vk == 0xC0 { Some(if shift { '~' } else { '`' }) }
    else if vk == 0xDB { Some(if shift { '{' } else { '[' }) }
    else if vk == 0xDD { Some(if shift { '}' } else { ']' }) }
    else if vk == 0xDC { Some(if shift { '|' } else { '\\' }) }
    else if vk == 0xBA { Some(if shift { ':' } else { ';' }) }
    else if vk == 0xDE { Some(if shift { '"' } else { '\'' }) }
    else if vk == 0x6A { Some('*') }
    else if vk == 0x6B { Some('+') }
    else if vk == 0x6D { Some('-') }
    else if vk == 0x6F { Some('/') }
    else if vk == 0x6E { Some('.') }
    else { None }
}

/// The character of a key on a US layout, for following a command line.
pub fn vk_to_ascii(vk: u32, shift: bool) -> (r: Option<char>)
    ensures
        r == ascii_of_key(vk, shift),
{
    if 0x41 <= vk && vk <= 0x5A {
        let base: u8 = (vk as u8 - 0x41) + 0x61;
        return Some(if shift { (base - 32) as char } else { base as char });
    }
    if 0x30 <= vk && vk <= 0x39 {
        if !shift {
            return Some((0x30u8 + (vk as u8 - 0x30)) as char);
        }
        return if vk == 0x31 { Some('!') }
        else if vk == 0x32 { Some('@') }
        else if vk == 0x33 { Some('#') }
        else if vk == 0x34 { Some('$') }
        else if vk == 0x35 { Some('%') }
        else if vk == 0x36 { Some('^') }
        else if vk == 0x37 { Some('&') }
        else if vk == 0x38 { Some('*') }
        else if vk == 0x39 { Some('(') }
        else { Some(')') };
    }
    if 0x60 <= vk && vk <= 0x69 {
        return Some((0x30u8 + (vk as u8 - 0x60)) as char);
    }
    if vk == 0x20 {
        return Some(' ');
    }
    if vk == 0xBC { Some(if shift { '<' } else { ',' }) }
    else if vk == 0xBE { Some(if shift { '>' } else { '.' }) }
    else if vk == 0xBD { Some(if shift { '_' } else { '-' }) }
    else if vk == 0xBB { Some(if shift { '+' } else { '=' }) }
    else if vk == 0xBF { Some(if shift { '?' } else { '/' }) }
    else if vk == 0xC0 { Some(if shift { '~' } else { '`' }) }
    else if vk == 0xDB { Some(if shift { '{' } else { '[' }) }
    else if vk == 0xDD { Some(if shift { '}' } else { ']' }) }
    else if vk == 0xDC { Some(if shift { '|' } else { '\\' }) }
    else if vk == 0xBA { Some(if shift { ':' } else { ';' }) }
    else if vk == 0xDE { Some(if shift { '"' } else { '\'' }) }
    else if vk == 0x6A { Some('*') }
    else if vk == 0x6B { Some('+') }
    else if vk == 0x6D { Some('-') }
    else if vk == 0x6F { Some('/') }
    else if vk == 0x6E { Some('.') }
    else { None }
}

/// Window classes of terminal windows.
pub open spec fn terminal_class(class: Seq<char>) -> bool {
    class == "CASCADIA_HOSTING_WINDOW_CLASS"@ || class == "ConsoleWindowClass"@ || class == "PseudoConsoleWindow"@
        || seq_starts_with(class, "mintty"@)
}

/// Whether a window class is that of a terminal window.
pub fn is_terminal_class(class: &str) -> (r: bool)
    ensures
        r == terminal_class(class@),
{
    let c = chars_of(class);
    let a = chars_of("CASCADIA_HOSTING_WINDOW_CLASS");
    let b = chars_of("ConsoleWindowClass");
    let d = chars_of("PseudoConsoleWindow");
    chars_eq(c.as_slice(), a.as_slice()) || chars_eq(c.as_slice(), b.as_slice()) || chars_eq(c.as_slice(), d.as_slice())
        || starts_with_str(c.as_slice(), "mintty")
}

/// A single kanji.
pub open spec fn single_kanji(s: Seq<char>) -> bool {
    s.len() == 1 && is_kanji(s[0])
}

/// Whether the word's surface is a single kanji.
pub fn is_single_kanji_entry(e: &WordEntry) -> (r: bool)
    ensures
        r == single_kanji(e.surface@),
{
    let cs = chars_of(e.surface.as_str());
    if cs.len() != 1 {
        return false;
    }
    let u = cs[0] as u32;
    (0x4E00 <= u && u <= 0x9FFF) || (0x3400 <= u && u <= 0x4DBF)
}

/// Extra cost of a single-kanji candidate in the candidate list.
pub fn single_kanji_penalty(surface: &str) -> (r: i32)
    ensures
        r == (if single_kanji(surface@) { 2000i32 } else { 0i32 }),
{
    let cs = chars_of(surface);
    if cs.len() != 1 {
        return 0;
    }
    let u = cs[0] as u32;
    if (0x4E00 <= u && u <= 0x9FFF) || (0x3400 <= u && u <= 0x4DBF) {
        2000
    } else {
        0
    }
}

/// Readings that are particles or auxiliaries: written otherwise, they are
/// conversion mistakes.
pub open spec fn particle_readings() -> Seq<Seq<char>> {
    seq!["に"@, "は"@, "を"@, "へ"@, "が"@, "の"@, "と"@, "も"@, "や"@, "か"@, "で"@, "ね"@, "よ"@, "わ"@, "し"@, "ば"@, "な"@, "ぞ"@, "さ"@]
}

pub open spec fn is_ascii_alnum(c: char) -> bool {
    ('0' <= c && c <= '9') || ('a' <= c && c <= 'z') || ('A' <= c && c <= 'Z')
}

/// A (reading, surface) pair worth learning: not a particle written
/// otherwise, no ASCII letters or digits in the surface, not a
/// one-character reading written otherwise, and not a short reading
/// written in katakana.
pub open spec fn learnable(reading: Seq<char>, surface: Seq<char>) -> bool {
    &&& !(particle_readings().contains(reading) && surface != reading)
    &&& !(exists|i: int| 0 <= i < surface.len() && is_ascii_alnum(#[trigger] surface[i]))
    &&& !(reading.len() == 1 && surface != reading)
    &&& !(reading.len() <= 3 && surface == to_katakana_seq(reading))
}

/// Whether the pair may be learned.
pub fn is_learnable_pair(reading: &str, surface: &str) -> (r: bool)
    ensures
        r == learnable(reading@, surface@),
{
    let list: [&str; 19] = ["に", "は", "を", "へ", "が", "の", "と", "も", "や", "か", "で", "ね", "よ", "わ", "し", "ば", "な", "ぞ", "さ"];
    let rc = chars_of(reading);
    let sc = chars_of(surface);
    let same = chars_eq(rc.as_slice(), sc.as_slice());
    let mut is_particle = false;
    let mut i: usize = 0;
    while i < 19
        invariant
            i <= 19,
            rc@ == reading@,
            forall|k: int| 0 <= k < 19 ==> (#[trigger] list@[k])@ == particle_readings()[k],
            is_particle == exists|k: int| 0 <= k < i && particle_readings()[k] == reading@,
        decreases 19 - i,
    {
        let w = chars_of(list[i]);
        if chars_eq(rc.as_slice(), w.as_slice()) {
            is_particle = true;
        }
        i += 1;
    }
    proof {
        if particle_readings().contains(reading@) {
            let k = choose|k: int| 0 <= k < particle_readings().len() && particle_readings()[k] == reading@;
        }
    }
    if is_particle && !same {
        return false;
    }
    let mut j: usize = 0;
    while j < sc.len()
        invariant
            sc@ == surface@,
            j <= sc@.len(),
            forall|k: int| 0 <= k < j ==> !is_ascii_alnum(#[trigger] sc@[k]),
        decreases sc@.len() - j,
    {
        let c = sc[j];
        if ('0' <= c && c <= '9') || ('a' <= c && c <= 'z') || ('A' <= c && c <= 'Z') {
            assert(is_ascii_alnum(surface@[j as int]));
            return false;
        }
        j += 1;
    }
    if rc.len() == 1 && !same {
        return false;
    }
    if rc.len() <= 3 {
        let k = hiragana_to_katakana(reading);
        let kc = chars_of(k.as_str());
        if chars_eq(sc.as_slice(), kc.as_slice()) {
            return false;
        }
    }
    true
}

/// The vowels in their order.
pub open spec fn vowel(v: int) -> char {
    if v == 0 { 'a' } else if v == 1 { 'i' } else if v == 2 { 'u' } else if v == 3 { 'e' } else { 'o' }
}

/// Every string of `k` vowels, in the order of the vowels.
pub open spec fn vowel_strings(k: nat) -> Seq<Seq<char>>
    decreases k,
{
    if k == 0 {
        seq![Seq::empty()]
    } else {
        let prev = vowel_strings((k - 1) as nat);
        Seq::new(5 * prev.len(), |i: int| prev[i / 5].push(vowel(i % 5)))
    }
}

/// Every string of `k` vowels (5 to the `k` of them), for completing or
/// replacing vowels of mistyped romaji.
pub fn vowel_combos(k: usize) -> (r: Vec<Vec<char>>)
    ensures
        r@.len() == vowel_strings(k as nat).len(),
        forall|i: int| 0 <= i < r@.len() ==> (#[trigger] r@[i])@ == vowel_strings(k as nat)[i],
{
    let vs: [char; 5] = ['a', 'i', 'u', 'e', 'o'];
    let mut result: Vec<Vec<char>> = Vec::new();
    result.push(Vec::new());
    let mut step: usize = 0;
    assert(result@[0]@ =~= Seq::<char>::empty());
    while step < k
        invariant
            step <= k,
            forall|v: int| 0 <= v < 5 ==> #[trigger] vs@[v] == vowel(v),
            result@.len() == vowel_strings(step as nat).len(),
            forall|i: int| 0 <= i < result@.len() ==> (#[trigger] result@[i])@ == vowel_strings(step as nat)[i],
        decreases k - step,
    {
        let ghost prev = vowel_strings(step as nat);
        let mut next: Vec<Vec<char>> = Vec::new();
        let mut p: usize = 0;
        while p < result.len()
            invariant
                p <= result@.len(),
                forall|v: int| 0 <= v < 5 ==> #[trigger] vs@[v] == vowel(v),
                result@.len() == prev.len(),
                forall|i: int| 0 <= i < result@.len() ==> (#[trigger] result@[i])@ == prev[i],
                next@.len() == 5 * p,
                forall|i: int| 0 <= i < next@.len() ==> (#[trigger] next@[i])@ == prev[i / 5].push(vowel(i % 5)),
            decreases result@.len() - p,
        {
            let mut v: usize = 0;
            while v < 5
                invariant
                    v <= 5,
                    p < result@.len(),
                    forall|w: int| 0 <= w < 5 ==> #[trigger] vs@[w] == vowel(w),
                    result@[p as int]@ == prev[p as int],
                    next@.len() == 5 * p + v,
                    forall|i: int| 0 <= i < next@.len() ==> (#[trigger] next@[i])@ == prev[i / 5].push(vowel(i % 5)),
                decreases 5 - v,
            {
                let mut c = crate::text::vec_from_range(result[p].as_slice(), 0, result[p].len());
                c.push(vs[v]);
                proof {
                    assert(result@[p as int]@.subrange(0, result@[p as int]@.len() as int) =~= result@[p as int]@);
                    let i = 5 * p + v;
                    assert(i / 5 == p as int) by (nonlinear_arith)
                        requires
                            i == 5 * p + v,
                            0 <= v < 5,
                    ;
                    assert(i % 5 == v as int) by (nonlinear_arith)
                        requires
                            i == 5 * p + v,
                            0 <= v < 5,
                    ;
                }
                next.push(c);
                v += 1;
            }
            p += 1;
        }
        result = next;
        step += 1;
        assert(result@.len() == vowel_strings(step as nat).len());
    }
    result
}

/// UTF-16 code units of a character.
pub open spec fn utf16_of(c: char) -> Seq<u16> {
    let u = c as u32;
    if u < 0x10000 {
        seq![u as u16]
    } else {
        let v = u - 0x10000;
        seq![(0xD800 + v / 0x400) as u16, (0xDC00 + v % 0x400) as u16]
    }
}

/// UTF-16 code units of a character sequence.
pub open spec fn utf16_units(s: Seq<char>) -> Seq<u16>
    decreases s.len(),
{
    if s.len() == 0 {
        Seq::empty()
    } else {
        utf16_units(s.drop_last()) + utf16_of(s.last())
    }
}

/// A string as zero-terminated UTF-16, as the Windows API takes it.
pub fn to_wide(s: &str) -> (r: Vec<u16>)
    ensures
        r@ == utf16_units(s@).push(0u16),
{
    let cs = chars_of(s);
    let mut out: Vec<u16> = Vec::new();
    let mut i: usize = 0;
    while i < cs.len()
        invariant
            cs@ == s@,
            i <= cs@.len(),
            out@ == utf16_units(cs@.take(i as int)),
        decreases cs@.len() - i,
    {
        let u = cs[i] as u32;
        proof {
            assert(cs@.take(i + 1).drop_last() =~= cs@.take(i as int));
            assert(cs@.take(i + 1).last() == cs@[i as int]);
        }
        if u < 0x10000 {
            out.push(u as u16);
        } else {
            let v = u - 0x10000;
            out.push((0xD800 + v / 0x400) as u16);
            out.push((0xDC00 + v % 0x400) as u16);
        }
        proof {
            assert(out@ =~= utf16_units(cs@.take(i + 1)));
        }
        i += 1;
    }
    assert(cs@.take(cs@.len() as int) =~= cs@);
    out.push(0);
    out
}

/// Whether every character is ASCII.
pub open spec fn all_ascii(s: Seq<char>) -> bool {
    forall|i: int| 0 <= i < s.len() ==> (#[trigger] s[i] as u32) < 0x80
}

/// A typed line as hiragana: ASCII is read as romaji, anything else has its
/// katakana turned into hiragana.
pub fn normalize_input(romaji: &RomajiConverter, input: &str) -> (r: String)
    ensures
        all_ascii(input@) ==> r@ == romaji.spec_convert(input@),
        !all_ascii(input@) ==> r@ == crate::text::to_hiragana_seq(input@),
{
    let cs = chars_of(input);
    let mut ascii = true;
    let mut i: usize = 0;
    while i < cs.len()
        invariant
            cs@ == input@,
            i <= cs@.len(),
            ascii == forall|k: int| 0 <= k < i ==> (#[trigger] cs@[k] as u32) < 0x80,
        decreases cs@.len() - i,
    {
        if (cs[i] as u32) >= 0x80 {
            ascii = false;
        }
        i += 1;
    }
    if ascii {
        romaji.convert(input)
    } else {
        katakana_to_hiragana(input)
    }
}

} // verus!
