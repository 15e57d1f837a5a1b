use common::settings::{browse_fill, browsed_expansion, save_plan, script_stem, settings_rows, SettingsEntry};

fn entry(name: &str, target: &str, desc: &str, is_alias: bool, frequency: u32, auto_run: bool) -> SettingsEntry {
    SettingsEntry {
        name: name.to_string(),
        target: target.to_string(),
        description: desc.to_string(),
        is_alias,
        frequency,
        auto_run,
    }
}

fn sample() -> Vec<SettingsEntry> {
    vec![
        entry("gs", "git status", "変更状況", true, u32::MAX, true),
        entry("git push", "git push", "", false, 3, true),
        entry("ll", "ls -la", "一覧", true, u32::MAX, false),
        entry("cargo build", "cargo build", "Build", false, 9, true),
    ]
}

#[test]
fn filter_and_search() {
    let es = sample();
    assert_eq!(settings_rows(&es, 0, "", -1, false), vec![0, 1, 2, 3]);
    assert_eq!(settings_rows(&es, 1, "", -1, false), vec![0, 2]);
    assert_eq!(settings_rows(&es, 2, "", -1, false), vec![1, 3]);
    assert_eq!(settings_rows(&es, 0, "  GIT ", -1, false), vec![0, 1]);
    assert_eq!(settings_rows(&es, 0, "build", -1, false), vec![3]);
}

#[test]
fn sort_by_use_and_by_column() {
    let es = sample();
    assert_eq!(settings_rows(&es, 0, "", -2, false), vec![0, 2, 3, 1]);
    assert_eq!(settings_rows(&es, 0, "", 1, false), vec![3, 1, 0, 2]);
    assert_eq!(settings_rows(&es, 0, "", 1, true), vec![2, 0, 1, 3]);
    assert_eq!(settings_rows(&es, 0, "", 0, false), vec![1, 3, 0, 2]);
}

#[test]
fn browsing_quotes_spaced_paths_and_proposes_a_stem() {
    assert_eq!(browsed_expansion("C:\\tools\\run.bat"), "C:\\tools\\run.bat");
    assert_eq!(browsed_expansion("C:\\My Scripts\\deploy.ps1"), "\"C:\\My Scripts\\deploy.ps1\"");
    assert_eq!(script_stem("\"C:\\My Scripts\\deploy.ps1\""), "deploy");
    assert_eq!(script_stem("/usr/local/bin/build.sh.bak"), "build");
    assert_eq!(script_stem("notes"), "notes");
    assert_eq!(script_stem("dir/"), "");
    let (exp, stem) = browse_fill("C:\\My Scripts\\deploy.ps1", "  ");
    assert_eq!(exp, "\"C:\\My Scripts\\deploy.ps1\"");
    assert_eq!(stem, Some("deploy".to_string()));
    let (_, kept) = browse_fill("C:\\tools\\run.bat", "r");
    assert_eq!(kept, None);
}

#[test]
fn saving_the_form() {
    assert!(save_plan("gs", "   ", None).is_none());
    let p = save_plan("", "  git status ", None).unwrap();
    assert!(!p.is_alias);
    assert_eq!(p.key, "git status");
    assert_eq!(p.expansion, "git status");
    assert!(!p.is_script);
    assert_eq!(p.remove_old, None);
    let p = save_plan(" dp ", "C:\\x\\Deploy.PS1", Some((false, "old cmd".to_string()))).unwrap();
    assert!(p.is_alias);
    assert_eq!(p.alias, "dp");
    assert_eq!(p.key, "dp");
    assert!(p.is_script);
    assert_eq!(p.remove_old, Some((false, "old cmd".to_string())));
    let p = save_plan("dp", "python tool.py", Some((true, "dp".to_string()))).unwrap();
    assert!(p.is_script);
    assert_eq!(p.remove_old, None);
    let p = save_plan("dp2", "echo", Some((true, "dp".to_string()))).unwrap();
    assert_eq!(p.remove_old, Some((true, "dp".to_string())));
}
