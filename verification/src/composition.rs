//! The composition being typed (raw kana, a provisional conversion with
//! its candidates, or committed text) and the timing of automatic
//! provisional conversion.

use vstd::prelude::*;
use crate::text::{chars_of, ends_with_str, seq_ends_with, string_from_chars, string_from_range};

verus! {

/// Whether the input ends like a phrase boundary (punctuation or a common
/// sentence-final or connective ending).
pub open spec fn ends_at_boundary(s: Seq<char>) -> bool {
    ||| seq_ends_with(s, "。"@)
    ||| seq_ends_with(s, "、"@)
    ||| seq_ends_with(s, "！"@)
    ||| seq_ends_with(s, "？"@)
    ||| seq_ends_with(s, "です"@)
    ||| seq_ends_with(s, "ます"@)
    ||| seq_ends_with(s, "でした"@)
    ||| seq_ends_with(s, "ました"@)
    ||| seq_ends_with(s, "けど"@)
    ||| seq_ends_with(s, "けれど"@)
    ||| seq_ends_with(s, "けれども"@)
    ||| seq_ends_with(s, "から"@)
    ||| seq_ends_with(s, "ので"@)
    ||| seq_ends_with(s, "のに"@)
    ||| seq_ends_with(s, "ても"@)
    ||| seq_ends_with(s, "して"@)
    ||| seq_ends_with(s, "した"@)
    ||| seq_ends_with(s, "する"@)
    ||| seq_ends_with(s, "って"@)
    ||| seq_ends_with(s, "った"@)
    ||| seq_ends_with(s, "には"@)
    ||| seq_ends_with(s, "では"@)
    ||| seq_ends_with(s, "とは"@)
}

/// Whether provisional conversion of `s` is due `elapsed_ms` after the last
/// key: never on empty input; after 250 ms of pause; or when the input ends
/// at a phrase boundary.
pub open spec fn auto_convert_due(s: Seq<char>, elapsed_ms: int) -> bool {
    s.len() > 0 && (elapsed_ms >= 250 || ends_at_boundary(s))
}

/// Input that ends with a punctuation mark or with a sentence-final or
/// connective ending (。 、 ！ ？ です ます でした ました けど けれど けれども
/// から ので のに ても して した する って った には では とは) is converted
/// at once, whatever the pause; other non-empty input after 250 ms and not
/// before; empty input never.
pub proof fn law_auto_convert_timing(s: Seq<char>, elapsed_ms: int)
    ensures
        s.len() > 0 && (seq_ends_with(s, "。"@) || seq_ends_with(s, "、"@) || seq_ends_with(s, "！"@)
            || seq_ends_with(s, "？"@) || seq_ends_with(s, "です"@) || seq_ends_with(s, "ます"@)
            || seq_ends_with(s, "でした"@) || seq_ends_with(s, "ました"@) || seq_ends_with(s, "けど"@)
            || seq_ends_with(s, "けれど"@) || seq_ends_with(s, "けれども"@) || seq_ends_with(s, "から"@)
            || seq_ends_with(s, "ので"@) || seq_ends_with(s, "のに"@) || seq_ends_with(s, "ても"@)
            || seq_ends_with(s, "して"@) || seq_ends_with(s, "した"@) || seq_ends_with(s, "する"@)
            || seq_ends_with(s, "って"@) || seq_ends_with(s, "った"@) || seq_ends_with(s, "には"@)
            || seq_ends_with(s, "では"@) || seq_ends_with(s, "とは"@)) ==> auto_convert_due(s, elapsed_ms),
        s.len() > 0 && elapsed_ms >= 250 ==> auto_convert_due(s, elapsed_ms),
        s.len() == 0 ==> !auto_convert_due(s, elapsed_ms),
        elapsed_ms < 250 && !(seq_ends_with(s, "。"@) || seq_ends_with(s, "、"@) || seq_ends_with(s, "！"@)
            || seq_ends_with(s, "？"@) || seq_ends_with(s, "です"@) || seq_ends_with(s, "ます"@)
            || seq_ends_with(s, "でした"@) || seq_ends_with(s, "ました"@) || seq_ends_with(s, "けど"@)
            || seq_ends_with(s, "けれど"@) || seq_ends_with(s, "けれども"@) || seq_ends_with(s, "から"@)
            || seq_ends_with(s, "ので"@) || seq_ends_with(s, "のに"@) || seq_ends_with(s, "ても"@)
            || seq_ends_with(s, "して"@) || seq_ends_with(s, "した"@) || seq_ends_with(s, "する"@)
            || seq_ends_with(s, "って"@) || seq_ends_with(s, "った"@) || seq_ends_with(s, "には"@)
            || seq_ends_with(s, "では"@) || seq_ends_with(s, "とは"@)) ==> !auto_convert_due(s, elapsed_ms),
{
}

/// Decides whether to run provisional conversion now (see
/// `auto_convert_due`).
pub fn should_auto_convert(input: &str, elapsed_ms: u64) -> (r: bool)
    ensures
        r == auto_convert_due(input@, elapsed_ms as int),
{
    let s = chars_of(input);
    if s.len() == 0 {
        return false;
    }
    if elapsed_ms >= 250 {
        return true;
    }
    let t = s.as_slice();
    ends_with_str(t, "。") || ends_with_str(t, "、") || ends_with_str(t, "！") || ends_with_str(
        t,
        "？",
    ) || ends_with_str(t, "です") || ends_with_str(t, "ます") || ends_with_str(t, "でした")
        || ends_with_str(t, "ました") || ends_with_str(t, "けど") || ends_with_str(t, "けれど")
        || ends_with_str(t, "けれども") || ends_with_str(t, "から") || ends_with_str(t, "ので")
        || ends_with_str(t, "のに") || ends_with_str(t, "ても") || ends_with_str(t, "して")
        || ends_with_str(t, "した") || ends_with_str(t, "する") || ends_with_str(t, "って")
        || ends_with_str(t, "った") || ends_with_str(t, "には") || ends_with_str(t, "では")
        || ends_with_str(t, "とは")
}

/// A composition as plain values.
pub enum CompositionView {
    Raw(Seq<char>),
    Provisional { reading: Seq<char>, converted: Seq<char>, candidates: Seq<Seq<char>>, selected: nat },
    Committed(Seq<char>),
}

/// State of the text being composed.
pub enum CompositionState {
    /// Kana not converted yet.
    RawKana(String),
    /// A provisional conversion of `reading`, showing `converted`, with the
    /// candidate texts and the one selected.
    Provisional { reading: String, converted: String, candidates: Vec<String>, selected_index: usize },
    /// Committed text.
    Committed(String),
}

impl View for CompositionState {
    type V = CompositionView;

    open spec fn view(&self) -> CompositionView {
        match self {
            CompositionState::RawKana(s) => CompositionView::Raw(s@),
            CompositionState::Provisional { reading, converted, candidates, selected_index } =>
                CompositionView::Provisional {
                reading: reading@,
                converted: converted@,
                candidates: candidates@.map_values(|c: String| c@),
                selected: *selected_index as nat,
            },
            CompositionState::Committed(s) => CompositionView::Committed(s@),
        }
    }
}

/// The text shown for a composition.
pub open spec fn text_of(v: CompositionView) -> Seq<char> {
    match v {
        CompositionView::Raw(s) => s,
        CompositionView::Provisional { converted, .. } => converted,
        CompositionView::Committed(s) => s,
    }
}

/// The reading of a composition; a committed one has none.
pub open spec fn reading_of(v: CompositionView) -> Seq<char> {
    match v {
        CompositionView::Raw(s) => s,
        CompositionView::Provisional { reading, .. } => reading,
        CompositionView::Committed(_) => Seq::empty(),
    }
}

/// Whether input is under way.
pub open spec fn composing(v: CompositionView) -> bool {
    match v {
        CompositionView::Raw(s) => s.len() > 0,
        CompositionView::Provisional { .. } => true,
        CompositionView::Committed(_) => false,
    }
}

/// Whether a later candidate can be selected.
pub open spec fn can_next(v: CompositionView) -> bool {
    v matches CompositionView::Provisional { candidates, selected, .. } && selected + 1 < candidates.len()
}

/// Whether an earlier candidate can be selected.
pub open spec fn can_prev(v: CompositionView) -> bool {
    v matches CompositionView::Provisional { selected, .. } && selected > 0
}

/// The selected index of a provisional conversion is that of a candidate,
/// or the first when there are none.
pub open spec fn index_in_range(v: CompositionView) -> bool {
    v matches CompositionView::Provisional { candidates, selected, .. } ==> selected == 0 || selected
        < candidates.len()
}

/// The composition with the next candidate selected and shown.
pub open spec fn next_of(v: CompositionView) -> CompositionView {
    match v {
        CompositionView::Provisional { reading, converted, candidates, selected } =>
            CompositionView::Provisional {
            reading,
            converted: candidates[selected + 1 as int],
            candidates,
            selected: selected + 1,
        },
        _ => v,
    }
}

/// The composition with the previous candidate selected and shown.
pub open spec fn prev_of(v: CompositionView) -> CompositionView {
    match v {
        CompositionView::Provisional { reading, converted, candidates, selected } =>
            CompositionView::Provisional {
            reading,
            converted: candidates[selected - 1 as int],
            candidates,
            selected: (selected - 1) as nat,
        },
        _ => v,
    }
}

/// A provisional conversion shows the candidate it has selected.
pub open spec fn shows_selected(v: CompositionView) -> bool {
    v matches CompositionView::Provisional { converted, candidates, selected, .. } && selected
        < candidates.len() && converted == candidates[selected as int]
}

/// Selecting the next candidate and then the previous one (or the reverse)
/// gives back the composition, when it shows its selected candidate.
pub proof fn law_next_prev_undo(v: CompositionView)
    requires
        shows_selected(v),
    ensures
        can_next(v) ==> can_prev(next_of(v)) && prev_of(next_of(v)) == v,
        can_prev(v) ==> can_next(prev_of(v)) && next_of(prev_of(v)) == v,
        can_next(v) ==> shows_selected(next_of(v)),
        can_prev(v) ==> shows_selected(prev_of(v)),
{
}

/// After typing `text`: the composition is raw kana, its reading with
/// `text` added; a committed one starts afresh.
pub open spec fn after_input(v: CompositionView, text: Seq<char>) -> CompositionView {
    match v {
        CompositionView::Raw(s) => CompositionView::Raw(s + text),
        CompositionView::Provisional { reading, .. } => CompositionView::Raw(reading + text),
        CompositionView::Committed(_) => CompositionView::Raw(text),
    }
}

/// A sequence without its last character, if it has one.
pub open spec fn pop_last(s: Seq<char>) -> Seq<char> {
    if s.len() == 0 {
        s
    } else {
        s.drop_last()
    }
}

impl CompositionState {
    /// An empty raw composition.
    pub fn new() -> (r: Self)
        ensures
            r@ == CompositionView::Raw(Seq::empty()),
    {
        CompositionState::RawKana(String::new())
    }

    /// Whether input is under way.
    pub fn is_composing(&self) -> (r: bool)
        ensures
            r == composing(self@),
    {
        match self {
            CompositionState::RawKana(s) => {
                let c = chars_of(s.as_str());
                c.len() > 0
            },
            CompositionState::Provisional { .. } => true,
            CompositionState::Committed(_) => false,
        }
    }

    /// The text shown.
    pub fn get_text(&self) -> (r: &str)
        ensures
            r@ == text_of(self@),
    {
        match self {
            CompositionState::RawKana(s) => s.as_str(),
            CompositionState::Provisional { converted, .. } => converted.as_str(),
            CompositionState::Committed(s) => s.as_str(),
        }
    }

    /// The reading.
    pub fn get_reading(&self) -> (r: &str)
        ensures
            r@ == reading_of(self@),
    {
        match self {
            CompositionState::RawKana(s) => s.as_str(),
            CompositionState::Provisional { reading, .. } => reading.as_str(),
            CompositionState::Committed(_) => {
                proof {
                    reveal_strlit("");
                }
                ""
            },
        }
    }
}

impl Default for CompositionState {
    fn default() -> (r: Self)
        ensures
            r@ == CompositionView::Raw(Seq::empty()),
    {
        Self::new()
    }
}

/// The input context: the composition, the committed texts, and the
/// application being typed into. The time of the last key belongs to the
/// caller, which hands the elapsed time to `should_auto_convert`.
pub struct InputContext {
    pub state: CompositionState,
    pub history: Vec<String>,
    pub app_name: Option<String>,
}

fn concat_str(a: &str, b: &str) -> (r: String)
    ensures
        r@ == a@ + b@,
{
    let mut x = chars_of(a);
    let y = chars_of(b);
    let mut k: usize = 0;
    let ghost x0 = x@;
    while k < y.len()
        invariant
            k <= y.len(),
            x@ == x0 + y@.take(k as int),
        decreases y.len() - k,
    {
        x.push(y[k]);
        assert(y@.take(k + 1) =~= y@.take(k as int).push(y@[k as int]));
        k += 1;
    }
    assert(y@.take(y.len() as int) =~= y@);
    string_from_chars(x.as_slice())
}

fn without_last(s: &str) -> (r: String)
    ensures
        r@ == pop_last(s@),
{
    let c = chars_of(s);
    if c.len() == 0 {
        return string_from_chars(c.as_slice());
    }
    let r = string_from_range(c.as_slice(), 0, c.len() - 1);
    assert(c@.subrange(0, c.len() - 1) =~= c@.drop_last());
    r
}

impl InputContext {
    pub fn new() -> (r: Self)
        ensures
            r.state@ == CompositionView::Raw(Seq::empty()),
            r.history@.len() == 0,
            r.app_name is None,
    {
        InputContext { state: CompositionState::new(), history: Vec::new(), app_name: None }
    }

    /// Adds typed text: a provisional conversion goes back to raw kana with
    /// the text after its reading; a committed composition starts afresh.
    pub fn add_input(&mut self, text: &str)
        ensures
            final(self).state@ == after_input(old(self).state@, text@),
            final(self).history == old(self).history,
            final(self).app_name == old(self).app_name,
            index_in_range(old(self).state@) ==> index_in_range(final(self).state@),
    {
        let next = match &self.state {
            CompositionState::RawKana(s) => concat_str(s.as_str(), text),
            CompositionState::Provisional { reading, .. } => concat_str(reading.as_str(), text),
            CompositionState::Committed(_) => concat_str("", text),
        };
        proof {
            reveal_strlit("");
            assert(Seq::<char>::empty() + text@ =~= text@);
        }
        self.state = CompositionState::RawKana(next);
    }

    /// Deletes the last character of the reading. Raw kana loses its last
    /// character (`false` if there was none); a provisional conversion goes
    /// back to raw kana without the last character of its reading; a
    /// committed composition is left (`false`).
    pub fn backspace(&mut self) -> (r: bool)
        ensures
            r == (match old(self).state@ {
                CompositionView::Raw(s) => s.len() > 0,
                CompositionView::Provisional { .. } => true,
                CompositionView::Committed(_) => false,
            }),
            r ==> final(self).state@ == CompositionView::Raw(pop_last(reading_of(old(self).state@))),
            !r ==> final(self).state == old(self).state,
            final(self).history == old(self).history,
            final(self).app_name == old(self).app_name,
            index_in_range(old(self).state@) ==> index_in_range(final(self).state@),
    {
        let next = match &self.state {
            CompositionState::RawKana(s) => {
                let c = chars_of(s.as_str());
                if c.len() == 0 {
                    return false;
                }
                without_last(s.as_str())
            },
            CompositionState::Provisional { reading, .. } => without_last(reading.as_str()),
            CompositionState::Committed(_) => {
                return false;
            },
        };
        self.state = CompositionState::RawKana(next);
        true
    }

    /// Starts a provisional conversion showing `converted`, with the first
    /// candidate selected.
    pub fn set_provisional(&mut self, reading: String, converted: String, candidates: Vec<String>)
        ensures
            final(self).state@ == (CompositionView::Provisional {
                reading: reading@,
                converted: converted@,
                candidates: candidates@.map_values(|c: String| c@),
                selected: 0,
            }),
            final(self).history == old(self).history,
            final(self).app_name == old(self).app_name,
            index_in_range(old(self).state@) ==> index_in_range(final(self).state@),
    {
        self.state = CompositionState::Provisional { reading, converted, candidates, selected_index: 0 };
    }

    /// Selects and shows the next candidate, if there is one.
    pub fn next_candidate(&mut self) -> (moved: bool)
        ensures
            moved == can_next(old(self).state@),
            moved ==> final(self).state@ == next_of(old(self).state@),
            !moved ==> final(self).state == old(self).state,
            final(self).history == old(self).history,
            final(self).app_name == old(self).app_name,
            index_in_range(old(self).state@) ==> index_in_range(final(self).state@),
    {
        let next = match &self.state {
            CompositionState::Provisional { reading, converted, candidates, selected_index } => {
                if *selected_index < candidates.len() && candidates.len() - *selected_index > 1 {
                    let i = *selected_index + 1;
                    Some(
                        CompositionState::Provisional {
                            reading: reading.clone(),
                            converted: candidates[i].clone(),
                            candidates: candidates.clone(),
                            selected_index: i,
                        },
                    )
                } else {
                    None
                }
            },
            _ => None,
        };
        match next {
            Some(st) => {
                proof {
                    let old_c = old(self).state@;
                    assert(st@ =~~= next_of(old_c));
                }
                self.state = st;
                true
            },
            None => false,
        }
    }

    /// Selects and shows the previous candidate, if there is one.
    pub fn prev_candidate(&mut self) -> (moved: bool)
        requires
            index_in_range(old(self).state@),
        ensures
            moved == can_prev(old(self).state@),
            moved ==> final(self).state@ == prev_of(old(self).state@),
            !moved ==> final(self).state == old(self).state,
            final(self).history == old(self).history,
            final(self).app_name == old(self).app_name,
            index_in_range(old(self).state@) ==> index_in_range(final(self).state@),
    {
        let next = match &self.state {
            CompositionState::Provisional { reading, converted, candidates, selected_index } => {
                if *selected_index > 0 {
                    let i = *selected_index - 1;
                    Some(
                        CompositionState::Provisional {
                            reading: reading.clone(),
                            converted: candidates[i].clone(),
                            candidates: candidates.clone(),
                            selected_index: i,
                        },
                    )
                } else {
                    None
                }
            },
            _ => None,
        };
        match next {
            Some(st) => {
                proof {
                    let old_c = old(self).state@;
                    assert(st@ =~~= prev_of(old_c));
                }
                self.state = st;
                true
            },
            None => false,
        }
    }

    /// Commits the text shown, if there is any: it joins the history and
    /// the composition becomes committed.
    pub fn commit(&mut self) -> (r: Option<String>)
        ensures
            r is Some <==> text_of(old(self).state@).len() > 0,
            r matches Some(t) ==> {
                &&& t@ == text_of(old(self).state@)
                &&& final(self).state@ == CompositionView::Committed(t@)
                &&& final(self).history@ == old(self).history@.push(t)
            },
            r is None ==> final(self).state == old(self).state && final(self).history == old(self).history,
            final(self).app_name == old(self).app_name,
            index_in_range(old(self).state@) ==> index_in_range(final(self).state@),
    {
        let c = chars_of(self.state.get_text());
        if c.len() == 0 {
            return None;
        }
        let text = string_from_chars(c.as_slice());
        self.history.push(text.clone());
        self.state = CompositionState::Committed(text.clone());
        Some(text)
    }

    /// Takes a provisional conversion back to its reading as raw kana, and
    /// returns the reading.
    pub fn cancel(&mut self) -> (r: Option<String>)
        ensures
            r is Some <==> old(self).state@ is Provisional,
            r matches Some(t) ==> t@ == reading_of(old(self).state@) && final(self).state@ == CompositionView::Raw(t@),
            r is None ==> final(self).state == old(self).state,
            final(self).history == old(self).history,
            final(self).app_name == old(self).app_name,
            index_in_range(old(self).state@) ==> index_in_range(final(self).state@),
    {
        let reading = match &self.state {
            CompositionState::Provisional { reading, .. } => reading.clone(),
            _ => {
                return None;
            },
        };
        self.state = CompositionState::RawKana(reading.clone());
        Some(reading)
    }

    /// Empties the composition.
    pub fn clear(&mut self)
        ensures
            final(self).state@ == CompositionView::Raw(Seq::empty()),
            final(self).history == old(self).history,
            final(self).app_name == old(self).app_name,
            index_in_range(old(self).state@) ==> index_in_range(final(self).state@),
    {
        self.state = CompositionState::new();
    }

    /// Whether raw kana should be converted now, `elapsed_ms` after the
    /// last key; never for a provisional or committed composition.
    pub fn should_auto_convert(&self, elapsed_ms: u64) -> (r: bool)
        ensures
            r == (self.state@ matches CompositionView::Raw(s) && auto_convert_due(s, elapsed_ms as int)),
    {
        match &self.state {
            CompositionState::RawKana(input) => should_auto_convert(input.as_str(), elapsed_ms),
            _ => false,
        }
    }
}

impl Default for InputContext {
    fn default() -> (r: Self)
        ensures
            r.state@ == CompositionView::Raw(Seq::empty()),
            r.history@.len() == 0,
            r.app_name is None,
    {
        Self::new()
    }
}

} // verus!
