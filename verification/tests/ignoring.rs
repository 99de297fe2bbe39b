use dsync::config::Config;
use dsync::ignore_edit::add;
use dsync::ignore_edit::append_lines;
use dsync::ignore_edit::present_set;
use dsync::ignore_edit::removable;
use dsync::ignore_edit::remove_indices;
use dsync::ignore_edit::start_removal;
use dsync::ignore_edit::update;
use dsync::ignore_rules::IgnoreSet;

fn cfg_with_ignore(ignore: &str) -> Config {
    let mut c = Config::seeded("/tmp/x".into());
    c.ignore = ignore.to_string();
    c
}

fn strings(list: &[&str]) -> Vec<String> {
    list.iter().map(|s| s.to_string()).collect()
}

#[test]
fn dsync_always_ignored_even_empty() {
    let set = IgnoreSet::from_patterns("/src", "").unwrap();
    assert!(set.is_ignored(".dsync", true));
    assert!(set.is_ignored(".dsync/config.yaml", false));
    assert!(!set.is_ignored("foo.txt", false));
}

#[test]
fn pattern_excludes_and_negation_reincludes() {
    let set = IgnoreSet::from_patterns("/src", "*.log\n!keep.log\n").unwrap();
    assert!(set.is_ignored("debug.log", false));
    assert!(!set.is_ignored("keep.log", false));
}

#[test]
fn directory_pattern() {
    let set = IgnoreSet::from_patterns("/src", "node_modules/\n").unwrap();
    assert!(set.is_ignored("node_modules", true));
    assert!(set.is_ignored("node_modules/x.js", false));
}

#[test]
fn add_dedupes() {
    let cfg = cfg_with_ignore("*.log\n");
    let present = present_set(&cfg);
    assert!(present.contains(&"*.log".to_string()));
    let mut cfg2 = cfg;
    append_lines(&mut cfg2, &vec!["*.tmp".to_string()]);
    assert!(cfg2.ignore.contains("*.log"));
    assert!(cfg2.ignore.contains("*.tmp"));
}

#[test]
fn remove_selected_indices() {
    let mut cfg = cfg_with_ignore("*.log\n*.tmp\nbuild/\n");
    let items = removable(&cfg);
    assert_eq!(items, ["*.log", "*.tmp", "build/"]);
    let edit = remove_indices(&mut cfg, &vec![1usize]);
    assert!(edit.changed);
    assert!(cfg.ignore.contains("*.log"));
    assert!(!cfg.ignore.contains("*.tmp"));
    assert!(cfg.ignore.contains("build/"));
}

#[test]
fn update_imports_and_dedupes() {
    let mut cfg = cfg_with_ignore("*.log\n");
    let before = present_set(&cfg);
    let files = vec![(".gitignore".to_string(), "*.log\n*.tmp\n# comment\nbuild/\n".to_string())];
    update(&mut cfg, &files).unwrap();
    let new: Vec<String> =
        present_set(&cfg).into_iter().filter(|p| !before.contains(p)).collect();
    assert_eq!(new, vec!["*.tmp".to_string(), "build/".to_string()]);
}

#[test]
fn rules_come_from_the_config() {
    let set = IgnoreSet::build("/src", &cfg_with_ignore("# a comment\n\n  *.o  \n")).unwrap();
    assert!(set.is_ignored("a.o", false));
    assert!(set.is_ignored("d/e/a.o", false));
    assert!(!set.is_ignored("a.c", false));
    assert!(!set.is_ignored("# a comment", false));
}

#[test]
fn paths_are_taken_by_their_components() {
    let set = IgnoreSet::from_patterns("/src", "/build\n").unwrap();
    assert!(set.is_ignored("build", true));
    assert!(set.is_ignored("build//x/./y", false));
    assert!(!set.is_ignored("sub/build", true));
    assert!(set.is_ignored(".dsync//config.yaml", false));
    assert!(!set.is_ignored(".dsyncs", false));
    assert!(!set.is_ignored("a/.dsyncs", false));
}

#[test]
fn refused_patterns_are_named() {
    let e = IgnoreSet::from_patterns("/src", "*.log\n a{ \n").err().unwrap();
    let mut builder = ignore::gitignore::GitignoreBuilder::new("/src");
    let reason = builder.add_line(None, "a{").err().unwrap().to_string();
    assert_eq!(e.message(), format!("config error: invalid ignore pattern `a{{`: {reason}"));
}

#[test]
fn appended_lines_leave_the_patterns_as_they_were() {
    let mut cfg = cfg_with_ignore("a\r\r\n\r\nb\r");
    assert_eq!(present_set(&cfg), ["a", "b"]);
    append_lines(&mut cfg, &strings(&["c\r", "# d", "e"]));
    assert_eq!(present_set(&cfg), ["a", "b", "c", "e"]);
    assert_eq!(cfg.ignore, "a\r\n\nb\r\nc\r\n# d\ne\n");
}

#[test]
fn a_leading_dot_is_no_directory_above() {
    let set = IgnoreSet::from_patterns("/src", "*\n!a\n").unwrap();
    assert!(!set.is_ignored("a", false));
    assert!(!set.is_ignored("./a", false));
    assert!(set.is_ignored("b", false));
    assert!(set.is_ignored("./b", false));
    assert!(set.is_ignored("./b/a", false));
    assert!(set.is_ignored("./.dsync/config.yaml", false));
}

#[test]
fn without_patterns_only_the_configuration_is_ignored() {
    for root in ["/src", "/", "."] {
        let set = IgnoreSet::from_patterns(root, "").unwrap();
        for p in ["foo.txt", ".dsyncrc", "a/b/c", "x.dsync", "./y", ".gitignore", "a/.dsyncs"] {
            assert!(!set.is_ignored(p, false), "{root} {p}");
            assert!(!set.is_ignored(p, true), "{root} {p}");
        }
    }
    for patterns in ["", "!.dsync/\n", "!*\n", "!.dsync\n"] {
        let set = IgnoreSet::from_patterns("/src", patterns).unwrap();
        for p in [".dsync", ".dsync/config.yaml", ".dsync/a/b"] {
            assert!(set.is_ignored(p, false), "{patterns} {p}");
            assert!(set.is_ignored(p, true), "{patterns} {p}");
        }
    }
}

#[test]
fn nothing_comes_back_below_an_excluded_directory() {
    let set = IgnoreSet::from_patterns("/src", "dist/\n!dist/keep.txt\n").unwrap();
    assert!(set.is_ignored("dist/keep.txt", false));
    assert!(set.is_ignored("dist", true));
    assert!(!set.is_ignored("dist", false));
}

#[test]
fn bad_patterns_are_refused() {
    let e = IgnoreSet::from_patterns("/src", "ok\na{b\n").err().unwrap();
    assert!(e.message().starts_with("config error: invalid ignore pattern `a{b`: "));
}

#[test]
fn adding_tells_old_from_new() {
    let mut cfg = cfg_with_ignore("*.log\n\n");
    let edit = add(&mut cfg, &strings(&[" *.tmp ", "*.log", "", "*.tmp"])).unwrap();
    assert!(edit.changed);
    assert_eq!(edit.lines, ["added: *.tmp", "already present: *.log", "already present: *.tmp"]);
    assert_eq!(cfg.ignore, "*.log\n\n*.tmp\n");
    let again = add(&mut cfg, &strings(&["*.tmp"])).unwrap();
    assert!(!again.changed);
    assert_eq!(cfg.ignore, "*.log\n\n*.tmp\n");
    assert_eq!(add(&mut cfg, &vec![]).unwrap_err().message(), "no patterns given");
}

#[test]
fn an_unfinished_last_line_is_finished() {
    let mut cfg = cfg_with_ignore("a");
    append_lines(&mut cfg, &strings(&["b"]));
    assert_eq!(cfg.ignore, "a\nb\n");
}

#[test]
fn importing_keeps_comments_and_blank_lines() {
    let mut cfg = cfg_with_ignore("# mine\n*.log\n");
    let files = vec![
        ("one".to_string(), "# c\n\n *.tmp\n*.log\n".to_string()),
        ("two".to_string(), "*.tmp\nbuild/\n# end\n".to_string()),
    ];
    let edit = update(&mut cfg, &files).unwrap();
    assert_eq!(
        edit.lines,
        ["one: 1 imported, 1 already present", "two: 1 imported, 1 already present"]
    );
    assert_eq!(cfg.ignore, "# mine\n*.log\n# c\n\n*.tmp\nbuild/\n# end\n");
    assert_eq!(cfg.compression_level, 3);
    let bare = vec![("c".to_string(), "# only\n\n".to_string())];
    let edit = update(&mut cfg, &bare).unwrap();
    assert!(!edit.changed);
    assert_eq!(edit.lines, ["c: 0 imported, 0 already present"]);
    assert!(!cfg.ignore.contains("only"));
    assert_eq!(update(&mut cfg, &vec![]).unwrap_err().message(), "no files given");
}

#[test]
fn removal_leaves_the_rest_alone() {
    let mut cfg = cfg_with_ignore("# head\n\n  a\n\nb\n");
    assert_eq!(removable(&cfg), ["# head", "  a", "b"]);
    let edit = remove_indices(&mut cfg, &vec![1, 7, 1]);
    assert_eq!(edit.lines, ["removed: a"]);
    assert_eq!(cfg.ignore, "# head\n\n\nb\n");
    let none = remove_indices(&mut cfg, &vec![]);
    assert!(!none.changed);
    assert_eq!(none.lines, ["nothing selected; config unchanged"]);
    remove_indices(&mut cfg, &vec![0, 1]);
    assert_eq!(cfg.ignore, "\n\n");
    assert!(matches!(start_removal(&cfg, false), Ok(None)));
}

#[test]
fn someone_must_choose_what_goes() {
    let cfg = cfg_with_ignore("a\n");
    assert_eq!(
        start_removal(&cfg, false).unwrap_err().message(),
        "no TTY available; edit `.dsync/config.yaml` directly to remove ignore patterns"
    );
    assert_eq!(start_removal(&cfg, true).unwrap(), Some(strings(&["a"])));
}
