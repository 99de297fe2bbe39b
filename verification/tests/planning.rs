use dsync::hash::digest;
use dsync::hash::same_digest;
use dsync::ignore_rules::IgnoreSet;
use dsync::sync::plan::build;
use dsync::sync::plan::can_be_judged;
use dsync::sync::plan::common_files;
use dsync::sync::plan::prunable;
use dsync::sync::plan::DigestPair;
use dsync::sync::plan::SyncPlan;
use dsync::sync::scan::index;
use dsync::sync::Run;
use dsync::sync::Step;
use dsync::sync::SyncDirection;
use dsync::transport::EntryKind;
use dsync::transport::FileEntry;

fn fe(name: &str, len: u64, mtime: i64, kind: EntryKind) -> FileEntry {
    FileEntry { rel_path: name.into(), len, mtime, kind, mode: 0o644 }
}

fn file(name: &str) -> FileEntry {
    fe(name, 10, 1000, EntryKind::File)
}

fn dir(name: &str) -> FileEntry {
    fe(name, 0, 1000, EntryKind::Dir)
}

fn run_plan(
    sender: Vec<FileEntry>,
    receiver: Vec<FileEntry>,
    delete: bool,
    ignore_patterns: &str,
) -> SyncPlan {
    let s = index(sender);
    let r = index(receiver);
    let set = IgnoreSet::from_patterns(".", ignore_patterns).unwrap();
    build(&s, &r, &set, delete, None)
}

#[test]
fn equal_size_mtime_unchanged() {
    let plan = run_plan(
        vec![fe("a.txt", 10, 1000, EntryKind::File)],
        vec![fe("a.txt", 10, 1000, EntryKind::File)],
        true,
        "",
    );
    assert!(plan.transfer.is_empty());
}

#[test]
fn differing_size_transfers() {
    let plan = run_plan(
        vec![fe("a.txt", 11, 1000, EntryKind::File)],
        vec![fe("a.txt", 10, 1000, EntryKind::File)],
        true,
        "",
    );
    assert_eq!(plan.transfer.len(), 1);
    assert!(plan.transfer[0].basis_exists);
}

#[test]
fn mtime_within_tolerance_unchanged() {
    let plan = run_plan(
        vec![fe("a.txt", 10, 1500, EntryKind::File)],
        vec![fe("a.txt", 10, 1000, EntryKind::File)],
        true,
        "",
    );
    assert!(plan.transfer.is_empty());
}

#[test]
fn sender_only_is_new() {
    let plan = run_plan(vec![fe("a.txt", 10, 1000, EntryKind::File)], vec![], true, "");
    assert_eq!(plan.transfer.len(), 1);
    assert!(!plan.transfer[0].basis_exists);
}

#[test]
fn receiver_only_is_deleted_unless_ignored() {
    let plan = run_plan(vec![], vec![fe("a.txt", 10, 1000, EntryKind::File)], true, "");
    assert_eq!(plan.delete, vec!["a.txt".to_string()]);

    let plan = run_plan(vec![], vec![fe("a.log", 10, 1000, EntryKind::File)], true, "*.log\n");
    assert!(plan.delete.is_empty());
}

#[test]
fn no_delete_keeps_extraneous() {
    let plan = run_plan(vec![], vec![fe("a.txt", 10, 1000, EntryKind::File)], false, "");
    assert!(plan.delete.is_empty());
}

#[test]
fn the_tolerance_is_two_seconds() {
    let moved = |s: i64, r: i64| {
        let plan = run_plan(
            vec![fe("a", 1, s, EntryKind::File)],
            vec![fe("a", 1, r, EntryKind::File)],
            true,
            "",
        );
        plan.transfer.len()
    };
    assert_eq!(moved(3000, 1000), 0);
    assert_eq!(moved(3001, 1000), 1);
    assert_eq!(moved(1000, 3000), 0);
    assert_eq!(moved(1000, 3001), 1);
    assert_eq!(moved(i64::MAX, i64::MIN), 1);
}

#[test]
fn entries_are_sorted_by_kind() {
    let idx = index(vec![
        file("a"),
        dir("d"),
        fe("l", 0, 0, EntryKind::Symlink),
        fe("d//b", 1, 1, EntryKind::File),
        fe("d/./b", 2, 2, EntryKind::File),
    ]);
    assert_eq!(idx.symlinks, 1);
    assert_eq!(idx.files.len(), 2);
    assert_eq!(idx.dirs.len(), 1);
    assert_eq!(idx.files.get("d/b").unwrap().len, 2);
    assert!(!idx.files.contains_key("l"));
}

#[test]
fn directories_come_before_what_they_hold() {
    let plan = run_plan(vec![dir("a/b/c"), dir("x"), dir("a"), dir("a/b")], vec![dir("x")], true, "");
    assert_eq!(plan.create_dirs, ["a", "a/b", "a/b/c"]);
    assert!(plan.transfer.is_empty());
}

#[test]
fn what_changes_its_kind_is_cleared() {
    let plan = run_plan(
        vec![dir("z"), dir("b"), file("m"), dir("k")],
        vec![file("z"), file("b"), dir("m"), dir("k")],
        true,
        "",
    );
    assert_eq!(plan.retype, ["b", "m", "z"]);
    assert_eq!(plan.create_dirs.len(), 2);
    assert!(plan.delete.is_empty());
    assert_eq!(plan.transfer.len(), 1);
    assert!(!plan.transfer[0].basis_exists);
}

#[test]
fn sizes_add_up() {
    let plan = run_plan(
        vec![fe("a", 3, 0, EntryKind::File), fe("b", 4, 0, EntryKind::File)],
        vec![],
        false,
        "",
    );
    assert_eq!(plan.total_bytes, 7);
    assert_eq!(plan.transfer[0].sender_mode, 0o644);
    let huge = run_plan(
        vec![fe("a", u64::MAX, 0, EntryKind::File), fe("b", 4, 0, EntryKind::File)],
        vec![],
        false,
        "",
    );
    assert_eq!(huge.total_bytes, u64::MAX);
}

#[test]
fn digests_decide_when_they_are_given() {
    let s = index(vec![file("new"), file("same"), fe("other", 10, 1000, EntryKind::File)]);
    let r = index(vec![
        fe("other", 10, 1000, EntryKind::File),
        fe("same", 99, 999_999, EntryKind::File),
    ]);
    let both = common_files(&s, &r);
    assert_eq!(both, ["same", "other"]);
    let pairs = vec![
        DigestPair { sender: digest(b"x"), receiver: digest(b"x") },
        DigestPair { sender: digest(b"x"), receiver: digest(b"y") },
    ];
    let set = IgnoreSet::from_patterns(".", "").unwrap();
    let plan = build(&s, &r, &set, true, Some(&pairs));
    let mut names: Vec<String> = plan.transfer.iter().map(|t| t.rel.clone()).collect();
    names.sort();
    assert_eq!(names, ["new", "other"]);
}

#[test]
fn digests_are_blake3() {
    assert_eq!(digest(b"abc"), *blake3::hash(b"abc").as_bytes());
    assert!(same_digest(&digest(b"a"), &digest(b"a")));
    assert!(!same_digest(&digest(b"a"), &digest(b"b")));
}

#[test]
fn empty_directories_go_from_the_inside_out() {
    let s = index(vec![dir("keep"), file("f")]);
    let r = index(vec![dir("keep"), dir("a"), dir("a/b"), dir("a/b/c"), dir("f"), dir("logs")]);
    let set = IgnoreSet::from_patterns(".", "logs/\n").unwrap();
    assert_eq!(prunable(&s, &r, &set), ["a/b/c", "a/b", "a"]);
}

#[test]
fn directories_take_over_the_permission_bits() {
    let mut sub = dir("a/b");
    sub.mode = 0o700;
    let sender = index(vec![dir("a"), sub]);
    let mut plan = run_plan(vec![dir("a"), dir("a/b")], vec![], true, "");
    plan.create_dirs.push("elsewhere".into());
    let mut run = Run::new(plan, &sender, &vec![], SyncDirection::Push, true, false);
    let mut seen = Vec::new();
    while let Some(Step::Mkdir(rel, mode)) = run.step() {
        seen.push((rel.clone(), *mode));
        run.report(Ok(())).unwrap();
    }
    let expected = [("a", 0o644), ("a/b", 0o700), ("elsewhere", 0o755)];
    assert_eq!(seen, expected.map(|(p, m)| (p.to_string(), m)));
}

#[test]
fn paths_from_the_root_are_noticed() {
    let none = index(vec![]);
    assert!(can_be_judged(&none, &index(vec![file("a/b"), file("c")]).files));
    let rooted = index(vec![file("a/b"), file("/c")]);
    assert!(!can_be_judged(&none, &rooted.files));
    assert!(can_be_judged(&index(vec![file("/c")]), &rooted.files));
}

#[test]
fn the_direction_says_who_sends() {
    assert!(SyncDirection::Push.source_sends());
    assert!(!SyncDirection::Pull.source_sends());
    assert_eq!(SyncDirection::Pull.label(), "pull");
}
