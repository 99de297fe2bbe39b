use dsync::delta::Delta;
use dsync::delta::Signature;
use dsync::error::DsyncError;
use dsync::hash::digest;
use dsync::ignore_rules::IgnoreSet;
use dsync::os_path::to_bytes;
use dsync::os_path::to_text;
use dsync::path;
use dsync::sync::plan::TransferItem;
use dsync::sync::transfer::worker_count;
use dsync::sync::transfer::Ask;
use dsync::sync::transfer::OneFile;
use dsync::sync::transfer::Told;
use dsync::sync::transfer::TransferOutcome;
use dsync::transport::local::mode_to_set;
use dsync::transport::local::mtime_ms;
use dsync::transport::local::parent_dir;
use dsync::transport::local::split_mtime;
use dsync::transport::local::tmp_path;
use dsync::transport::local::unless_absent;
use dsync::transport::local::Found;
use dsync::transport::local::LocalTransport;
use dsync::transport::local::Walk;
use dsync::transport::EntryKind;

fn item(len: u64, basis_exists: bool) -> TransferItem {
    TransferItem {
        rel: "f".into(),
        sender_len: len,
        sender_mtime: 0,
        sender_mode: 0,
        basis_exists,
    }
}

fn broken() -> DsyncError {
    DsyncError::Other("broken".into())
}

fn whole(item: &TransferItem, cap: u64) -> bool {
    matches!(OneFile::start(item, cap).1, Ask::ReadFile)
}

#[test]
fn which_files_go_whole() {
    assert!(whole(&item(5000, false), 1 << 20));
    assert!(whole(&item(1024, true), 1 << 20));
    assert!(!whole(&item(1025, true), 1 << 20));
    assert!(!whole(&item(1 << 20, true), 1 << 20));
    assert!(whole(&item((1 << 20) + 1, true), 1 << 20));
}

#[test]
fn a_whole_file_arrives_when_the_digests_agree() {
    let (mut one, ask) = OneFile::start(&item(3, false), 100);
    assert!(matches!(ask, Ask::ReadFile));
    assert!(matches!(one.next(Told::Data(Ok(b"abc".to_vec()))), Ask::WriteFile(d) if d == b"abc"));
    assert!(matches!(one.next(Told::Digest(Ok(digest(b"abc")))), Ask::Finished(Ok(()))));
}

#[test]
fn a_whole_file_that_fails_fails_for_good() {
    let (mut one, _) = OneFile::start(&item(3, false), 100);
    assert!(matches!(one.next(Told::Data(Err(broken()))), Ask::Finished(Err(DsyncError::Other(_)))));
    let (mut one, _) = OneFile::start(&item(3, false), 100);
    one.next(Told::Data(Ok(b"abc".to_vec())));
    assert!(matches!(one.next(Told::Digest(Err(broken()))), Ask::Finished(Err(_))));
}

#[test]
fn differing_digests_are_forgiven_once() {
    let (mut one, _) = OneFile::start(&item(3, false), 100);
    one.next(Told::Data(Ok(b"abc".to_vec())));
    assert!(matches!(one.next(Told::Digest(Ok(digest(b"xyz")))), Ask::ReadFile));
    one.next(Told::Data(Ok(b"abc".to_vec())));
    match one.next(Told::Digest(Ok(digest(b"xyz")))) {
        Ask::Finished(Err(e)) => assert_eq!(e.message(), "integrity check failed for f"),
        _ => panic!("expected an error"),
    }
    let (mut one, _) = OneFile::start(&item(3, false), 100);
    one.next(Told::Data(Ok(b"abc".to_vec())));
    one.next(Told::Digest(Ok(digest(b"xyz"))));
    one.next(Told::Data(Ok(b"abc".to_vec())));
    assert!(matches!(one.next(Told::Digest(Ok(digest(b"abc")))), Ask::Finished(Ok(()))));
    let (mut one, _) = OneFile::start(&item(5000, true), 1 << 20);
    one.next(Told::Signed(Ok(Some(Signature(vec![])))));
    one.next(Told::Differs(Ok(Delta(vec![]))));
    one.next(Told::Digest(Ok(digest(b"n"))));
    assert!(matches!(one.next(Told::Digest(Ok(digest(b"other")))), Ask::ReadFile));
    one.next(Told::Data(Ok(b"other".to_vec())));
    let ask = one.next(Told::Digest(Ok(digest(b"n"))));
    assert!(matches!(ask, Ask::Finished(Err(DsyncError::Integrity(p))) if p == "f"));
}

#[test]
fn a_delta_arrives_when_the_digests_agree() {
    let (mut one, ask) = OneFile::start(&item(5000, true), 1 << 20);
    assert!(matches!(ask, Ask::Signature));
    let sig = Signature(vec![1]);
    assert!(matches!(one.next(Told::Signed(Ok(Some(sig)))), Ask::Diff(s) if s.0 == [1]));
    assert!(matches!(one.next(Told::Differs(Ok(Delta(vec![2])))), Ask::Patch(d) if d.0 == [2]));
    assert!(matches!(one.next(Told::Digest(Ok(digest(b"n")))), Ask::Hash));
    assert!(matches!(one.next(Told::Digest(Ok(digest(b"n")))), Ask::Finished(Ok(()))));
}

#[test]
fn whatever_goes_wrong_with_a_delta_the_file_goes_whole() {
    let answers: Vec<fn(bool) -> Told> = vec![
        |ok| Told::Signed(if ok { Ok(Some(Signature(vec![]))) } else { Ok(None) }),
        |ok| Told::Differs(if ok { Ok(Delta(vec![])) } else { Err(broken()) }),
        |ok| Told::Digest(if ok { Ok(digest(b"n")) } else { Err(broken()) }),
        |ok| Told::Digest(if ok { Ok(digest(b"n")) } else { Ok(digest(b"other")) }),
    ];
    for bad in 0..answers.len() {
        let (mut one, _) = OneFile::start(&item(5000, true), 1 << 20);
        for (i, answer) in answers.iter().enumerate().take(bad + 1) {
            let ask = one.next(answer(i < bad));
            assert_eq!(matches!(ask, Ask::ReadFile), i == bad);
        }
        one.next(Told::Data(Ok(b"n".to_vec())));
        assert!(matches!(one.next(Told::Digest(Ok(digest(b"n")))), Ask::Finished(Ok(()))));
    }
}

#[test]
fn outcomes_add_up() {
    let mut outcome = TransferOutcome::new();
    outcome.record("a".into(), Ok(()));
    outcome.record("b".into(), Err(DsyncError::Integrity("b".into())));
    outcome.record_panic("why");
    assert_eq!(outcome.transferred, 1);
    assert_eq!(
        outcome.failures,
        [
            ("b".to_string(), "integrity check failed for b".to_string()),
            ("<unknown>".to_string(), "task panicked: why".to_string()),
        ]
    );
    assert_eq!(worker_count(0), 1);
    assert_eq!(worker_count(8), 8);
}

fn found(name: &str, kind: EntryKind) -> Found {
    Found { name: name.into(), kind, len: 7, mtime: 1, mode: 0o755 }
}

#[test]
fn a_walk_goes_into_listed_directories_only() {
    let set = IgnoreSet::from_patterns("/src", "target/\n").unwrap();
    let mut walk = Walk::new();
    assert_eq!(walk.next_dir().unwrap(), "");
    walk.visit("", found("a", EntryKind::File), Some(&set));
    walk.visit("", found("link", EntryKind::Symlink), Some(&set));
    walk.visit("", found("target", EntryKind::Dir), Some(&set));
    walk.visit("", found("target", EntryKind::File), Some(&set));
    walk.visit("", found(".dsync", EntryKind::Dir), Some(&set));
    walk.visit("", found("sub", EntryKind::Dir), Some(&set));
    assert_eq!(walk.next_dir().unwrap(), "sub");
    walk.visit("sub", found("b", EntryKind::File), Some(&set));
    assert_eq!(walk.next_dir(), None);
    let entries = walk.finish();
    let names: Vec<&str> = entries.iter().map(|e| e.rel_path.as_str()).collect();
    assert_eq!(names, ["a", "link", "target", "sub", "sub/b"]);
    assert_eq!(entries[0].len, 7);
    assert_eq!(entries[1].len, 0);
    assert_eq!(entries[3].len, 0);
}

#[test]
fn a_walk_lists_no_path_twice() {
    let mut walk = Walk::new();
    while let Some(dir) = walk.next_dir() {
        if dir.len() < 6 {
            for name in ["a", "b", "ab"] {
                walk.visit(&dir, found(name, EntryKind::Dir), None);
            }
            walk.visit(&dir, found("c", EntryKind::File), None);
        }
    }
    let mut paths: Vec<String> = walk.finish().into_iter().map(|e| e.rel_path).collect();
    let n = paths.len();
    paths.sort();
    paths.dedup();
    assert_eq!(paths.len(), n);
    assert!(paths.contains(&"a/b/ab".to_string()) && paths.contains(&"ab/b/c".to_string()));
}

#[test]
fn without_rules_only_the_configuration_is_left_out() {
    let mut walk = Walk::new();
    walk.visit("", found(".dsync", EntryKind::Dir), None);
    walk.visit("", found("x.log", EntryKind::File), None);
    walk.visit("d", found(".dsync", EntryKind::Dir), None);
    let names: Vec<String> = walk.finish().into_iter().map(|e| e.rel_path).collect();
    assert_eq!(names, ["x.log", "d/.dsync"]);
}

#[test]
fn times_survive_being_written() {
    assert_eq!(split_mtime(1_700_000_000_123), (1_700_000_000, 123_000_000));
    assert_eq!(split_mtime(-1), (-1, 999_000_000));
    assert_eq!(split_mtime(-2000), (-2, 0));
    assert_eq!(split_mtime(i64::MIN), (i64::MIN.div_euclid(1000), 192_000_000));
    assert_eq!(mtime_ms(false, 5), 5);
    assert_eq!(mtime_ms(true, 5), -5);
    for ms in [0u128, 1 << 63, (1 << 63) + 9, u128::MAX] {
        assert_eq!(mtime_ms(false, ms), ms as i64);
        assert_eq!(mtime_ms(true, ms), (ms as i64).wrapping_neg());
    }
    assert_eq!(mode_to_set(0), None);
    assert_eq!(mode_to_set(0o600), Some(0o600));
}

#[test]
fn files_are_written_beside_their_places() {
    assert_eq!(tmp_path("/a/b.txt"), "/a/.dsync.tmp.b.txt");
    assert_eq!(tmp_path("b.txt"), ".dsync.tmp.b.txt");
    assert_eq!(tmp_path("/"), "/.dsync.tmp.file");
    assert_eq!(parent_dir("/a/b").unwrap(), "/a");
    assert_eq!(parent_dir("/a").unwrap(), "/");
    assert_eq!(parent_dir("a").unwrap(), "");
    assert_eq!(parent_dir("/").unwrap_err().message(), "no parent dir for /");
    let tree = LocalTransport::new("/root".into());
    assert_eq!(tree.abs("a/b"), "/root/a/b");
    assert!(unless_absent("p", true, "x").is_ok());
    assert_eq!(unless_absent("p", false, "x").unwrap_err().message(), "io error at p: x");
}

#[test]
fn paths_are_the_operating_systems() {
    let samples = ["", "/", "a", "a/b", "/a/b/", "a//b", "./a", "a/./b", "..", "a/..", "/.", ".", "//x"];
    for p in samples {
        let os = std::path::Path::new(p);
        let want: Vec<String> =
            os.components().map(|c| c.as_os_str().to_str().unwrap().to_string()).collect();
        assert_eq!(path::components(p), want, "{p:?}");
        let name = os.file_name().map(|n| n.to_str().unwrap().to_string());
        assert_eq!(path::name_of(p), name, "{p:?}");
        for q in samples {
            let other = std::path::Path::new(q);
            assert_eq!(path::starts_with(p, q), os.starts_with(other), "{p:?} {q:?}");
            assert_eq!(path::path_comes_before(p, q), os < other, "{p:?} {q:?}");
            assert_eq!(path::join(p, q), os.join(other).to_str().unwrap(), "{p:?} {q:?}");
            assert_eq!(path::plain(p) == path::plain(q), os == other, "{p:?} {q:?}");
        }
    }
}

#[test]
fn every_path_has_a_text_that_tells_it() {
    let text = |b: &[u8]| to_text(&b.to_vec());
    assert_eq!(text(b""), "");
    assert_eq!(text("/a/\u{e9}\u{20ac}\u{1f600}".as_bytes()), "/a/\u{e9}\u{20ac}\u{1f600}");
    assert_eq!(text(b"/a\xffb/c"), "/a\0\u{ff}b/c");
    assert_eq!(text(b"\xe2\x82"), "\0\u{e2}\0\u{82}");
    assert_eq!(text(b"\xc0\xaf"), "\0\u{c0}\0\u{af}");
    assert_eq!(text(b"\xed\xa0\x80x"), "\0\u{ed}\0\u{a0}\0\u{80}x");
    assert_eq!(text(b"\0"), "\0\0");
    assert_eq!(to_bytes("a\0\u{fe}"), b"a\xfe");
    assert_eq!(to_bytes("\0\u{100}"), "\0\u{100}".as_bytes());
    let mut n: u32 = 1;
    for len in 0..60usize {
        let mut bytes = Vec::new();
        for _ in 0..len {
            n = n.wrapping_mul(1_664_525).wrapping_add(1_013_904_223);
            bytes.push((n >> 23) as u8);
        }
        assert_eq!(to_bytes(&to_text(&bytes)), bytes);
    }
}
