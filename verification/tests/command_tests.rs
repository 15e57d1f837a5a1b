use common::command::{alias_label, command_key, is_line_edit_vk, merge_command_suggestions, parse_seed_line, CommandCommit, CommandKey, CommandLine};

fn s(x: &str) -> String {
    x.to_string()
}

#[test]
fn alias_labels() {
    assert_eq!(alias_label("git status", "変更状況", true), "→ git status   (変更状況)");
    assert_eq!(alias_label("git commit -m \"\"", "", false), "→ git commit -m \"\"  ✎編集");
}

#[test]
fn aliases_first_then_new_history_commands() {
    let aliases = vec![(s("gs"), s("git status"), s(""), true)];
    let commands = vec![(s("gs"), s("dup"), 9), (s("git stash"), s("退避"), 3), (s("git show"), s(""), 1)];
    let items = merge_command_suggestions(&aliases, &commands, 8);
    let got: Vec<(&str, &str, &str, bool, bool)> = items
        .iter()
        .map(|i| (i.display.as_str(), i.target.as_str(), i.description.as_str(), i.is_alias, i.auto_run))
        .collect();
    assert_eq!(
        got,
        vec![
            ("gs", "git status", "→ git status", true, true),
            ("git stash", "git stash", "退避", false, true),
            ("git show", "git show", "", false, true),
        ]
    );
    assert_eq!(merge_command_suggestions(&aliases, &commands, 2).len(), 2);
}

#[test]
fn seed_lines() {
    assert_eq!(parse_seed_line("ls -la\tlist files\r"), Some((s("ls -la"), s("list files"))));
    assert_eq!(parse_seed_line("cargo build"), Some((s("cargo build"), s(""))));
    assert_eq!(parse_seed_line("  # comment"), None);
    assert_eq!(parse_seed_line("   "), None);
    assert_eq!(parse_seed_line("a\tb\tc"), Some((s("a"), s("b\tc"))));
}

#[test]
fn command_keys() {
    assert_eq!(command_key(0x0D, false), CommandKey::Commit);
    assert_eq!(command_key(0x2E, false), CommandKey::DeleteSelected);
    assert_eq!(command_key(0x09, false), CommandKey::Move { forward: true });
    assert_eq!(command_key(0x09, true), CommandKey::Move { forward: false });
    assert_eq!(command_key(0x08, false), CommandKey::Backspace);
    assert_eq!(command_key(0x1B, false), CommandKey::Cancel);
    assert_eq!(command_key(0x25, false), CommandKey::LoseTrack);
    assert_eq!(command_key(0x47, false), CommandKey::Char('g'));
    assert_eq!(command_key(0x47, true), CommandKey::Char('G'));
    assert_eq!(command_key(0x70, false), CommandKey::Ignore);
    assert!(is_line_edit_vk(0x24));
    assert!(!is_line_edit_vk(0x41));
}

fn sample_items() -> Vec<common::command::CommandItem> {
    let aliases = vec![(s("gs"), s("git status"), s(""), true), (s("gc"), s("git commit -m \"\""), s(""), false)];
    let commands = vec![(s("git stash"), s("退避"), 3)];
    merge_command_suggestions(&aliases, &commands, 8)
}

#[test]
fn command_line_typing_and_moving() {
    let mut line = CommandLine::new();
    assert!(!line.move_selection(3, true));
    line.type_char('g');
    line.type_char('x');
    line.backspace();
    assert_eq!(line.line, "g");
    assert!(line.move_selection(3, true));
    assert_eq!(line.selected, 1);
    assert!(line.move_selection(3, false));
    assert!(line.move_selection(3, false));
    assert_eq!(line.selected, 2);
    assert!(line.move_selection(3, true));
    assert_eq!(line.selected, 0);
    line.type_char('s');
    assert_eq!(line.selected, 0);
    line.clear();
    assert_eq!(line.line, "");
}

#[test]
fn command_line_commit_runs_or_inserts() {
    let items = sample_items();
    let mut line = CommandLine::new();
    line.type_char('g');
    match line.commit(&items) {
        CommandCommit::Replace { delete_count, text, run } => {
            assert_eq!((delete_count, text.as_str(), run), (1, "git status", true));
        }
        CommandCommit::RunTyped(_) => panic!("expected a replacement"),
    }
    assert_eq!(line.line, "");
    line.type_char('g');
    line.move_selection(items.len(), true);
    match line.commit(&items) {
        CommandCommit::Replace { text, run, .. } => assert_eq!((text.as_str(), run), ("git commit -m \"\"", false)),
        CommandCommit::RunTyped(_) => panic!("expected a replacement"),
    }
    assert_eq!(line.line, "git commit -m \"\"");
    let mut blank = CommandLine::new();
    blank.type_char(' ');
    match blank.commit(&items) {
        CommandCommit::RunTyped(l) => assert_eq!(l, " "),
        CommandCommit::Replace { .. } => panic!("a blank line runs as typed"),
    }
    assert_eq!(blank.line, "");
}

#[test]
fn only_history_commands_are_deletable() {
    let items = sample_items();
    let mut line = CommandLine::new();
    line.type_char('g');
    assert_eq!(line.deletable(&items), None);
    line.move_selection(items.len(), false);
    assert_eq!(line.deletable(&items), Some(s("git stash")));
}
