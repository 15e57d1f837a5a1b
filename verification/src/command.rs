//! Command mode decisions: the suggestion list for a command line (aliases
//! first, then the command history), the lines of the seed command list,
//! and the command line that command mode follows as keys reach a terminal.

use vstd::prelude::*;
use crate::text::{chars_of, chars_eq, string_from_chars, string_from_range};
use crate::llm::{trim_text, trim_ws, is_blank};
use crate::keys::{ascii_of_key, vk_to_ascii};

verus! {

/// A suggestion of command mode.
pub struct CommandItem {
    /// What the list shows first (the alias, or the command).
    pub display: String,
    /// What is typed when it is chosen.
    pub target: String,
    /// The text shown beside it.
    pub description: String,
    /// Whether it is an alias.
    pub is_alias: bool,
    /// Whether choosing it runs the line at once.
    pub auto_run: bool,
}

/// The text shown beside an alias: an arrow, the expansion, the
/// description in brackets when there is one, and a mark when the alias
/// only inserts.
pub open spec fn alias_text(expansion: Seq<char>, description: Seq<char>, auto_run: bool) -> Seq<char> {
    let tag = if auto_run {
        Seq::empty()
    } else {
        "  ✎編集"@
    };
    if description.len() == 0 {
        "→ "@ + expansion + tag
    } else {
        "→ "@ + expansion + "   ("@ + description + ")"@ + tag
    }
}

/// Suggestions as plain values: (display, target, description, is_alias,
/// auto_run).
pub open spec fn items_view(v: Seq<CommandItem>) -> Seq<(Seq<char>, Seq<char>, Seq<char>, bool, bool)> {
    v.map_values(|i: CommandItem| (i.display@, i.target@, i.description@, i.is_alias, i.auto_run))
}

/// Alias matches as plain values: (alias, expansion, description, auto_run).
pub open spec fn aliases_view(v: Seq<(String, String, String, bool)>) -> Seq<(Seq<char>, Seq<char>, Seq<char>, bool)> {
    v.map_values(|a: (String, String, String, bool)| (a.0@, a.1@, a.2@, a.3))
}

/// Command matches as plain values: (command, description, frequency).
pub open spec fn commands_view(v: Seq<(String, String, u32)>) -> Seq<(Seq<char>, Seq<char>, u32)> {
    v.map_values(|c: (String, String, u32)| (c.0@, c.1@, c.2))
}

/// The alias suggestions, in order.
pub open spec fn alias_items(aliases: Seq<(Seq<char>, Seq<char>, Seq<char>, bool)>) -> Seq<
    (Seq<char>, Seq<char>, Seq<char>, bool, bool),
> {
    aliases.map_values(
        |a: (Seq<char>, Seq<char>, Seq<char>, bool)| (a.0, a.1, alias_text(a.1, a.2, a.3), true, a.3),
    )
}

/// The suggestions with the history commands added, in order, each unless
/// one already shows it; commands run at once.
pub open spec fn with_commands(
    items: Seq<(Seq<char>, Seq<char>, Seq<char>, bool, bool)>,
    commands: Seq<(Seq<char>, Seq<char>, u32)>,
) -> Seq<(Seq<char>, Seq<char>, Seq<char>, bool, bool)>
    decreases commands.len(),
{
    if commands.len() == 0 {
        items
    } else {
        let prev = with_commands(items, commands.drop_last());
        let c = commands.last();
        if exists|j: int| 0 <= j < prev.len() && (#[trigger] prev[j]).0 == c.0 {
            prev
        } else {
            prev.push((c.0, c.0, c.1, false, true))
        }
    }
}

/// The suggestions for a command line: no more than `limit` of the alias
/// matches followed by the new history commands.
pub open spec fn suggestions(
    aliases: Seq<(Seq<char>, Seq<char>, Seq<char>, bool)>,
    commands: Seq<(Seq<char>, Seq<char>, u32)>,
    limit: nat,
) -> Seq<(Seq<char>, Seq<char>, Seq<char>, bool, bool)> {
    let all = with_commands(alias_items(aliases), commands);
    if all.len() > limit {
        all.take(limit as int)
    } else {
        all
    }
}

fn copy(s: &String) -> (r: String)
    ensures
        r@ == s@,
{
    let c = chars_of(s.as_str());
    string_from_chars(c.as_slice())
}

fn append(out: &mut Vec<char>, s: &str)
    ensures
        final(out)@ == old(out)@ + s@,
{
    let c = chars_of(s);
    let ghost o0 = out@;
    let mut k: usize = 0;
    while k < c.len()
        invariant
            k <= c.len(),
            out@ == o0 + c@.take(k as int),
        decreases c.len() - k,
    {
        out.push(c[k]);
        assert(c@.take(k + 1) =~= c@.take(k as int).push(c@[k as int]));
        k += 1;
    }
    assert(c@.take(c.len() as int) =~= c@);
}

/// The text shown beside an alias, as `alias_text` says.
pub fn alias_label(expansion: &str, description: &str, auto_run: bool) -> (r: String)
    ensures
        r@ == alias_text(expansion@, description@, auto_run),
{
    let mut out: Vec<char> = Vec::new();
    append(&mut out, "→ ");
    append(&mut out, expansion);
    let dc = chars_of(description);
    if dc.len() > 0 {
        append(&mut out, "   (");
        append(&mut out, description);
        append(&mut out, ")");
    }
    if !auto_run {
        append(&mut out, "  ✎編集");
    }
    proof {
        reveal_strlit("");
    }
    assert(out@ =~= alias_text(expansion@, description@, auto_run));
    string_from_chars(out.as_slice())
}

/// The suggestions for a command line, as `suggestions` says.
pub fn merge_command_suggestions(
    aliases: &Vec<(String, String, String, bool)>,
    commands: &Vec<(String, String, u32)>,
    limit: usize,
) -> (r: Vec<CommandItem>)
    ensures
        items_view(r@) == suggestions(aliases_view(aliases@), commands_view(commands@), limit as nat),
{
    let ghost av = aliases_view(aliases@);
    let ghost cv = commands_view(commands@);
    let mut out: Vec<CommandItem> = Vec::new();
    let mut i: usize = 0;
    assert(items_view(out@) =~= alias_items(av).take(0));
    while i < aliases.len()
        invariant
            i <= aliases@.len(),
            av == aliases_view(aliases@),
            items_view(out@) == alias_items(av).take(i as int),
        decreases aliases@.len() - i,
    {
        let a = &aliases[i];
        let ghost before = items_view(out@);
        out.push(
            CommandItem {
                display: copy(&a.0),
                target: copy(&a.1),
                description: alias_label(a.1.as_str(), a.2.as_str(), a.3),
                is_alias: true,
                auto_run: a.3,
            },
        );
        proof {
            assert(av[i as int] == (a.0@, a.1@, a.2@, a.3));
            assert(items_view(out@) =~= before.push(alias_items(av)[i as int]));
            assert(alias_items(av).take(i + 1) =~= alias_items(av).take(i as int).push(alias_items(av)[i as int]));
        }
        i += 1;
    }
    assert(alias_items(av).take(aliases@.len() as int) =~= alias_items(av));
    let ghost base = alias_items(av);
    let mut k: usize = 0;
    assert(cv.take(0) =~= Seq::<(Seq<char>, Seq<char>, u32)>::empty());
    while k < commands.len()
        invariant
            k <= commands@.len(),
            cv == commands_view(commands@),
            items_view(out@) == with_commands(base, cv.take(k as int)),
        decreases commands@.len() - k,
    {
        let ghost prev = items_view(out@);
        assert(cv.take(k + 1).drop_last() =~= cv.take(k as int));
        let c = &commands[k];
        assert(cv.take(k + 1).last() == (c.0@, c.1@, c.2));
        let cc = chars_of(c.0.as_str());
        let mut dup = false;
        let mut t: usize = 0;
        while t < out.len()
            invariant
                t <= out@.len(),
                dup == (exists|j: int| 0 <= j < t && (#[trigger] out@[j]).display@ == cc@),
            decreases out@.len() - t,
        {
            let dc = chars_of(out[t].display.as_str());
            if chars_eq(dc.as_slice(), cc.as_slice()) {
                dup = true;
            }
            t += 1;
        }
        proof {
            if dup {
                let j = choose|j: int| 0 <= j < out@.len() && (#[trigger] out@[j]).display@ == cc@;
                assert(prev[j].0 == cc@);
            }
            if exists|j: int| 0 <= j < prev.len() && (#[trigger] prev[j]).0 == c.0@ {
                let j = choose|j: int| 0 <= j < prev.len() && (#[trigger] prev[j]).0 == c.0@;
                assert(out@[j].display@ == cc@);
            }
        }
        if !dup {
            out.push(
                CommandItem { display: copy(&c.0), target: copy(&c.0), description: copy(&c.1), is_alias: false, auto_run: true },
            );
            assert(items_view(out@) =~= prev.push((c.0@, c.0@, c.1@, false, true)));
        }
        k += 1;
    }
    assert(cv.take(commands@.len() as int) =~= cv);
    if out.len() > limit {
        out.truncate(limit);
        assert(items_view(out@) =~= with_commands(base, cv).take(limit as int));
    }
    out
}

/// A line of the seed command list without its line end: a command, then
/// a tab and its description; blank lines and `#` comments give nothing.
pub open spec fn seed_entry(line: Seq<char>) -> Option<(Seq<char>, Seq<char>)> {
    let l = strip_line_end(line);
    if trim_ws(l).len() == 0 || trim_ws(l)[0] == '#' {
        None
    } else if exists|i: int| 0 <= i < l.len() && l[i] == '\t' {
        let i = first_tab(l);
        Some((l.take(i), l.skip(i + 1)))
    } else {
        Some((l, Seq::empty()))
    }
}

/// `s` without the carriage returns and line feeds at its end.
pub open spec fn strip_line_end(s: Seq<char>) -> Seq<char>
    decreases s.len(),
{
    if s.len() > 0 && (s.last() == '\r' || s.last() == '\n') {
        strip_line_end(s.drop_last())
    } else {
        s
    }
}

/// Position of the first tab (the length when there is none).
pub open spec fn first_tab(s: Seq<char>) -> int
    decreases s.len(),
{
    if s.len() == 0 {
        0
    } else if s[0] == '\t' {
        0
    } else {
        1 + first_tab(s.drop_first())
    }
}

proof fn lemma_first_tab(s: Seq<char>, i: int)
    requires
        0 <= i <= s.len(),
        forall|j: int| 0 <= j < i ==> s[j] != '\t',
        i == s.len() || s[i] == '\t',
    ensures
        first_tab(s) == i,
    decreases s.len(),
{
    if s.len() > 0 && s[0] != '\t' {
        lemma_first_tab(s.drop_first(), i - 1);
    }
}

/// The command and description of a seed line, as `seed_entry` says.
pub fn parse_seed_line(line: &str) -> (r: Option<(String, String)>)
    ensures
        match r {
            Some((c, d)) => seed_entry(line@) == Some((c@, d@)),
            None => seed_entry(line@) is None,
        },
{
    let cs = chars_of(line);
    let mut n = cs.len();
    assert(cs@.take(cs.len() as int) =~= cs@);
    while n > 0 && (cs[n - 1] == '\r' || cs[n - 1] == '\n')
        invariant
            n <= cs.len(),
            cs@ == line@,
            strip_line_end(cs@) == strip_line_end(cs@.take(n as int)),
        decreases n,
    {
        assert(cs@.take(n as int).drop_last() =~= cs@.take(n - 1));
        n -= 1;
    }
    let l = string_from_range(cs.as_slice(), 0, n);
    assert(cs@.subrange(0, n as int) =~= cs@.take(n as int));
    let t = trim_text(l.as_str());
    if t.len() == 0 || t[0] == '#' {
        return None;
    }
    let lc = chars_of(l.as_str());
    let mut i: usize = 0;
    while i < lc.len() && lc[i] != '\t'
        invariant
            i <= lc.len(),
            forall|j: int| 0 <= j < i ==> lc@[j] != '\t',
        decreases lc.len() - i,
    {
        i += 1;
    }
    proof {
        lemma_first_tab(lc@, i as int);
    }
    if i < lc.len() {
        let c = string_from_range(lc.as_slice(), 0, i);
        let d = string_from_range(lc.as_slice(), i + 1, lc.len());
        assert(lc@.subrange(0, i as int) =~= lc@.take(i as int));
        assert(lc@.subrange(i + 1, lc.len() as int) =~= lc@.skip(i + 1));
        Some((c, d))
    } else {
        assert(!(exists|j: int| 0 <= j < lc@.len() && lc@[j] == '\t'));
        Some((l, string_from_chars(&[])))
    }
}

/// The keys that move the cursor or edit the line (arrows, Home, End,
/// Delete, Page Up, Page Down, Insert): after one of them the typed line can
/// no longer be followed.
pub open spec fn line_edit_vk(vk: u32) -> bool {
    vk == 0x25 || vk == 0x27 || vk == 0x26 || vk == 0x28 || vk == 0x24 || vk == 0x23 || vk == 0x2E
        || vk == 0x21 || vk == 0x22 || vk == 0x2D
}

/// Whether a key moves the cursor or edits the line, as `line_edit_vk` says.
pub fn is_line_edit_vk(vk: u32) -> (r: bool)
    ensures
        r == line_edit_vk(vk),
{
    vk == 0x25 || vk == 0x27 || vk == 0x26 || vk == 0x28 || vk == 0x24 || vk == 0x23 || vk == 0x2E
        || vk == 0x21 || vk == 0x22 || vk == 0x2D
}

/// What a key does in command mode. Only `Commit`, a `DeleteSelected` that
/// removed something and a `Move` that moved the highlight keep the key from
/// the terminal; every other key reaches it.
#[derive(PartialEq, Eq, Structural, Clone, Copy, Debug)]
pub enum CommandKey {
    /// Enter: take the highlighted suggestion, or run the typed line.
    Commit,
    /// Delete: remove the highlighted history command; where nothing is
    /// removed, the key counts as a line edit (`LoseTrack`).
    DeleteSelected,
    /// Tab (forward) or Shift+Tab (backward): move the highlight.
    Move { forward: bool },
    /// Backspace: drop the last character of the line.
    Backspace,
    /// Escape: the line is abandoned.
    Cancel,
    /// A cursor or editing key: the line is no longer followed.
    LoseTrack,
    /// A character typed on the line.
    Char(char),
    /// Any other key.
    Ignore,
}

/// The command mode meaning of a key.
pub open spec fn command_key_spec(vk: u32, shift: bool) -> CommandKey {
    if vk == 0x0D {
        CommandKey::Commit
    } else if vk == 0x2E {
        CommandKey::DeleteSelected
    } else if vk == 0x09 {
        CommandKey::Move { forward: !shift }
    } else if vk == 0x08 {
        CommandKey::Backspace
    } else if vk == 0x1B {
        CommandKey::Cancel
    } else if line_edit_vk(vk) {
        CommandKey::LoseTrack
    } else {
        match ascii_of_key(vk, shift) {
            Some(c) => CommandKey::Char(c),
            None => CommandKey::Ignore,
        }
    }
}

/// The command mode meaning of a key, as `command_key_spec` says.
pub fn command_key(vk: u32, shift: bool) -> (r: CommandKey)
    ensures
        r == command_key_spec(vk, shift),
{
    if vk == 0x0D {
        CommandKey::Commit
    } else if vk == 0x2E {
        CommandKey::DeleteSelected
    } else if vk == 0x09 {
        CommandKey::Move { forward: !shift }
    } else if vk == 0x08 {
        CommandKey::Backspace
    } else if vk == 0x1B {
        CommandKey::Cancel
    } else if is_line_edit_vk(vk) {
        CommandKey::LoseTrack
    } else {
        match vk_to_ascii(vk, shift) {
            Some(c) => CommandKey::Char(c),
            None => CommandKey::Ignore,
        }
    }
}

/// What Enter does to the command line.
pub enum CommandCommit {
    /// No suggestion is taken: the typed line runs as it is, and is recorded.
    RunTyped(String),
    /// The typed line (`delete_count` characters) is replaced by `text`; when
    /// `run`, Enter is sent and `text` is recorded.
    Replace { delete_count: usize, text: String, run: bool },
}

/// The line typed so far at a terminal, and the highlighted suggestion.
pub struct CommandLine {
    pub line: String,
    pub selected: usize,
}

/// Whether the highlighted suggestion of `items` can be taken for `line`.
pub open spec fn takes_suggestion(line: Seq<char>, selected: nat, items: Seq<CommandItem>) -> bool {
    trim_ws(line).len() != 0 && selected < items.len()
}

/// The highlight after a move among `count` suggestions.
pub open spec fn moved_selection(selected: nat, count: nat, forward: bool) -> nat
    recommends
        count > 0,
{
    if forward {
        ((selected as int + 1) % (count as int)) as nat
    } else {
        ((selected as int + count as int - 1) % (count as int)) as nat
    }
}

/// Tab and then Shift+Tab (or the other way round) bring the highlight back
/// to where it was.
pub proof fn law_move_back_undoes(selected: nat, count: nat, forward: bool)
    requires
        selected < count,
    ensures
        moved_selection(moved_selection(selected, count, forward), count, !forward) == selected,
{
    let n = count as int;
    let s = selected as int;
    if forward {
        if s + 1 < n {
            vstd::arithmetic::div_mod::lemma_small_mod((s + 1) as nat, count);
            vstd::arithmetic::div_mod::lemma_mod_add_multiples_vanish(s, n);
            vstd::arithmetic::div_mod::lemma_small_mod(selected, count);
        } else {
            vstd::arithmetic::div_mod::lemma_mod_self_0(n);
            vstd::arithmetic::div_mod::lemma_small_mod((n - 1) as nat, count);
        }
    } else {
        if s == 0 {
            vstd::arithmetic::div_mod::lemma_small_mod((n - 1) as nat, count);
            vstd::arithmetic::div_mod::lemma_mod_self_0(n);
        } else {
            vstd::arithmetic::div_mod::lemma_mod_add_multiples_vanish(s - 1, n);
            vstd::arithmetic::div_mod::lemma_small_mod((s - 1) as nat, count);
            vstd::arithmetic::div_mod::lemma_small_mod(selected, count);
        }
    }
}

impl CommandLine {
    /// An empty line with the first suggestion highlighted.
    pub fn new() -> (r: Self)
        ensures
            r.line@ == Seq::<char>::empty(),
            r.selected == 0,
    {
        CommandLine { line: String::new(), selected: 0 }
    }

    /// A character is typed: it ends the line, and the highlight goes back to
    /// the first suggestion.
    pub fn type_char(&mut self, ch: char)
        ensures
            final(self).line@ == old(self).line@.push(ch),
            final(self).selected == 0,
    {
        let mut cs = chars_of(self.line.as_str());
        cs.push(ch);
        self.line = string_from_chars(cs.as_slice());
        self.selected = 0;
    }

    /// Backspace: the last character goes, and the highlight goes back to the
    /// first suggestion.
    pub fn backspace(&mut self)
        ensures
            final(self).line@ == (if old(self).line@.len() > 0 {
                old(self).line@.drop_last()
            } else {
                old(self).line@
            }),
            final(self).selected == 0,
    {
        let cs = chars_of(self.line.as_str());
        if cs.len() > 0 {
            self.line = string_from_range(cs.as_slice(), 0, cs.len() - 1);
            assert(cs@.subrange(0, cs@.len() - 1) =~= cs@.drop_last());
        }
        self.selected = 0;
    }

    /// The line is abandoned (Escape, or a key that edits the line).
    pub fn clear(&mut self)
        ensures
            final(self).line@ == Seq::<char>::empty(),
            final(self).selected == old(self).selected,
    {
        self.line = String::new();
    }

    /// Tab or Shift+Tab among `count` suggestions: the highlight moves on, or
    /// back, round the list. Nothing moves, and `false` comes back, for a
    /// blank line or no suggestions.
    pub fn move_selection(&mut self, count: usize, forward: bool) -> (r: bool)
        requires
            forward ==> old(self).selected < usize::MAX,
            !forward ==> old(self).selected + count <= usize::MAX,
        ensures
            r == (trim_ws(old(self).line@).len() != 0 && count > 0),
            final(self).line@ == old(self).line@,
            final(self).selected == (if r {
                moved_selection(old(self).selected as nat, count as nat, forward)
            } else {
                old(self).selected as nat
            }),
    {
        if is_blank(self.line.as_str()) || count == 0 {
            return false;
        }
        if forward {
            self.selected = (self.selected + 1) % count;
        } else {
            self.selected = (self.selected + count - 1) % count;
        }
        true
    }

    /// Enter, with the suggestions `items` for the line: the highlighted one
    /// replaces the typed line where there is one (the line then becomes its
    /// text, or is forgotten when it runs at once); else the typed line runs
    /// as it is and is forgotten.
    pub fn commit(&mut self, items: &[CommandItem]) -> (r: CommandCommit)
        ensures
            final(self).selected == old(self).selected,
            takes_suggestion(old(self).line@, old(self).selected as nat, items@) ==> {
                let it = items@[old(self).selected as int];
                &&& r matches CommandCommit::Replace { delete_count, text, run }
                &&& delete_count == old(self).line@.len()
                &&& text@ == it.target@
                &&& run == it.auto_run
                &&& final(self).line@ == (if it.auto_run { Seq::<char>::empty() } else { it.target@ })
            },
            !takes_suggestion(old(self).line@, old(self).selected as nat, items@) ==> {
                &&& r matches CommandCommit::RunTyped(line)
                &&& line@ == old(self).line@
                &&& final(self).line@ == Seq::<char>::empty()
            },
    {
        let cs = chars_of(self.line.as_str());
        if is_blank(self.line.as_str()) || items.len() == 0 || self.selected >= items.len() {
            let typed = string_from_chars(cs.as_slice());
            self.line = String::new();
            return CommandCommit::RunTyped(typed);
        }
        let it = &items[self.selected];
        let text = copy(&it.target);
        if it.auto_run {
            self.line = String::new();
        } else {
            self.line = copy(&it.target);
        }
        CommandCommit::Replace { delete_count: cs.len(), text, run: it.auto_run }
    }

    /// Delete, with the suggestions `items` for the line: the history command
    /// to remove, when the highlighted suggestion is one (aliases are not
    /// removed here).
    pub fn deletable(&self, items: &[CommandItem]) -> (r: Option<String>)
        ensures
            match r {
                Some(t) => takes_suggestion(self.line@, self.selected as nat, items@)
                    && !items@[self.selected as int].is_alias && t@ == items@[self.selected as int].target@,
                None => !(takes_suggestion(self.line@, self.selected as nat, items@)
                    && !items@[self.selected as int].is_alias),
            },
    {
        if is_blank(self.line.as_str()) || self.selected >= items.len() {
            return None;
        }
        let it = &items[self.selected];
        if it.is_alias {
            None
        } else {
            Some(copy(&it.target))
        }
    }
}

} // verus!
