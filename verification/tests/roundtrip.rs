use std::collections::BTreeMap;

use dsync::config::Config;
use dsync::delta;
use dsync::error::DsyncError;
use dsync::hash::digest;
use dsync::ignore_rules::IgnoreSet;
use dsync::sync::dry_run_summary;
use dsync::sync::plan;
use dsync::sync::plan::DigestPair;
use dsync::sync::plan::TransferItem;
use dsync::sync::scan;
use dsync::sync::transfer::Ask;
use dsync::sync::transfer::OneFile;
use dsync::sync::transfer::Told;
use dsync::sync::transfer::TransferOutcome;
use dsync::sync::Run;
use dsync::sync::Step;
use dsync::sync::SyncDirection;
use dsync::sync::SyncOptions;
use dsync::sync::SyncSummary;
use dsync::transport::local::mtime_ms;
use dsync::transport::local::parent_dir;
use dsync::transport::local::split_mtime;
use dsync::transport::local::Found;
use dsync::transport::local::Walk;
use dsync::transport::EntryKind;
use dsync::transport::FileEntry;

/// What stands at a path.
enum Node {
    File { data: Vec<u8>, mtime: i64 },
    Dir,
}

/// A tree in memory, and how many bytes were written to it.
struct Side {
    nodes: BTreeMap<String, Node>,
    sent: u64,
    clock: i64,
}

fn fault(path: &str, why: &str) -> DsyncError {
    DsyncError::io(path, why)
}

impl Side {
    fn new() -> Side {
        Side { nodes: BTreeMap::new(), sent: 0, clock: 1_700_000_000_000 }
    }

    /// Puts a file there, with the directories above it, as an editor would.
    fn edit(&mut self, rel: &str, content: &[u8]) {
        let parts: Vec<&str> = rel.split('/').collect();
        for n in 1..parts.len() {
            self.nodes.insert(parts[..n].join("/"), Node::Dir);
        }
        self.clock += 60_000;
        self.nodes.insert(rel.to_string(), Node::File { data: content.to_vec(), mtime: self.clock });
    }

    fn has(&self, rel: &str) -> bool {
        self.nodes.contains_key(rel)
    }

    fn list(&self, ignore: Option<&IgnoreSet>) -> Vec<FileEntry> {
        let mut walk = Walk::new();
        while let Some(dir) = walk.next_dir() {
            let prefix = if dir.is_empty() { String::new() } else { format!("{dir}/") };
            for (path, node) in &self.nodes {
                let name = match path.strip_prefix(&prefix) {
                    Some(n) if !n.contains('/') => n.to_string(),
                    _ => continue,
                };
                let found = match node {
                    Node::File { data, mtime } => {
                        Found { name, kind: EntryKind::File, len: data.len() as u64, mtime: *mtime, mode: 0 }
                    }
                    Node::Dir => Found { name, kind: EntryKind::Dir, len: 4096, mtime: 0, mode: 0o755 },
                };
                walk.visit(&dir, found, ignore);
            }
        }
        walk.finish()
    }

    fn read(&self, rel: &str) -> Result<Vec<u8>, DsyncError> {
        match self.nodes.get(rel) {
            Some(Node::File { data, .. }) => Ok(data.clone()),
            _ => Err(fault(rel, "no such file")),
        }
    }

    fn write(&mut self, rel: &str, data: &[u8], mtime: i64) -> Result<[u8; 32], DsyncError> {
        let parent = parent_dir(rel)?;
        let above = parent.is_empty() || matches!(self.nodes.get(&parent), Some(Node::Dir));
        if !above || matches!(self.nodes.get(rel), Some(Node::Dir)) {
            return Err(fault(rel, "in the way"));
        }
        let (secs, nanos) = split_mtime(mtime);
        let millis = (secs * 1000 + i64::from(nanos) / 1_000_000) as u128;
        let kept = mtime_ms(false, millis);
        self.nodes.insert(rel.to_string(), Node::File { data: data.to_vec(), mtime: kept });
        Ok(digest(data))
    }

    fn remove(&mut self, rel: &str) -> Result<(), DsyncError> {
        let inside = format!("{rel}/");
        if self.nodes.keys().any(|p| p.starts_with(&inside)) {
            return Err(fault(rel, "directory not empty"));
        }
        self.nodes.remove(rel);
        Ok(())
    }
}

fn transfer(
    item: &TransferItem,
    cap: u64,
    sender: &Side,
    receiver: &mut Side,
) -> Result<(), DsyncError> {
    let rel = item.rel.as_str();
    let (mut one, mut ask) = OneFile::start(item, cap);
    loop {
        let told = match ask {
            Ask::Finished(result) => return result,
            Ask::ReadFile => Told::Data(sender.read(rel)),
            Ask::WriteFile(data) => {
                receiver.sent += data.len() as u64;
                Told::Digest(receiver.write(rel, &data, item.sender_mtime))
            }
            Ask::Signature => {
                let basis = receiver.read(rel);
                Told::Signed(basis.and_then(|b| delta::signature(&b)).map(Some))
            }
            Ask::Diff(sig) => {
                let new = sender.read(rel).unwrap();
                assert!(delta::sizes_are_sane(&sig));
                Told::Differs(delta::diff(&sig, &new))
            }
            Ask::Patch(d) => {
                let basis = receiver.read(rel).unwrap();
                receiver.sent += d.0.len() as u64;
                let new = delta::apply(&basis, &d);
                Told::Digest(new.and_then(|n| receiver.write(rel, &n, item.sender_mtime)))
            }
            Ask::Hash => Told::Digest(sender.read(rel).map(|d| digest(&d))),
        };
        ask = one.next(told);
    }
}

fn sync(
    cfg: &Config,
    src: &mut Side,
    dst: &mut Side,
    opts: &SyncOptions,
) -> Result<SyncSummary, DsyncError> {
    let ignore = IgnoreSet::build("/src", cfg)?;
    let (sender, receiver) = match opts.direction {
        SyncDirection::Push => (src, dst),
        SyncDirection::Pull => (dst, src),
    };
    sender.sent = 0;
    receiver.sent = 0;
    let from = scan::index(sender.list(Some(&ignore)));
    let to = scan::index(receiver.list(None));
    let pairs: Option<Vec<DigestPair>> = if opts.checksum {
        let both = plan::common_files(&from, &to);
        let pair = |rel: &String| DigestPair {
            sender: digest(&sender.read(rel).unwrap()),
            receiver: digest(&receiver.read(rel).unwrap()),
        };
        Some(both.iter().map(pair).collect())
    } else {
        None
    };
    let plan = plan::build(&from, &to, &ignore, opts.delete, pairs.as_ref());
    if opts.dry_run {
        let listed = from.files.len();
        return Ok(dry_run_summary(opts.direction, opts.delete, &plan, listed, from.symlinks));
    }
    let prune = plan::prunable(&from, &to, &ignore);
    let mut run = Run::new(plan, &from, &prune, opts.direction, opts.delete, opts.dry_run);
    loop {
        let mut outcome = TransferOutcome::new();
        let mut transferred = false;
        let done = match run.step() {
            None => break,
            Some(Step::Remove(p)) => receiver.remove(p),
            Some(Step::Mkdir(p, _)) => {
                receiver.nodes.insert(p.clone(), Node::Dir);
                Ok(())
            }
            Some(Step::Transfer(items)) => {
                for item in items {
                    let result = transfer(item, cfg.delta_size_cap, sender, receiver);
                    outcome.record(item.rel.clone(), result);
                }
                transferred = true;
                Ok(())
            }
            Some(Step::Delete(p)) => receiver.remove(p),
            Some(Step::Prune(p)) => receiver.remove(p),
        };
        if transferred {
            run.report_transfer(outcome)?;
        } else {
            run.report(done)?;
        }
    }
    Ok(run.summary((sender.sent, receiver.sent)))
}

fn config(ignore: &str) -> Config {
    let mut cfg = Config::seeded("/dst".to_string());
    cfg.ignore = ignore.to_string();
    cfg
}

fn opts(direction: SyncDirection, delete: bool) -> SyncOptions {
    SyncOptions {
        direction,
        dry_run: false,
        threads: 4,
        transfer_threads: 1,
        compress: false,
        compression_level: 3,
        checksum: false,
        delete,
        quiet: true,
    }
}

fn push(cfg: &Config, src: &mut Side, dst: &mut Side, delete: bool) -> SyncSummary {
    sync(cfg, src, dst, &opts(SyncDirection::Push, delete)).unwrap()
}

fn pull(cfg: &Config, src: &mut Side, dst: &mut Side) -> SyncSummary {
    sync(cfg, src, dst, &opts(SyncDirection::Pull, true)).unwrap()
}

fn fingerprint(side: &Side) -> Vec<(String, [u8; 32])> {
    let mut out: Vec<(String, [u8; 32])> = side
        .list(None)
        .into_iter()
        .filter(|e| e.kind == EntryKind::File)
        .map(|e| {
            let data = side.read(&e.rel_path).unwrap();
            (e.rel_path, *blake3::hash(&data).as_bytes())
        })
        .collect();
    out.sort();
    out
}

#[test]
fn local_push_roundtrip() {
    let (mut src, mut dst) = (Side::new(), Side::new());
    src.edit("a.txt", b"hello");
    src.edit("sub/b.txt", b"world");
    src.edit("sub/deep/c.bin", &vec![7u8; 100_000]);

    let summary = push(&config(""), &mut src, &mut dst, true);
    assert_eq!(summary.files_transferred, 3);

    assert_eq!(dst.read("a.txt").unwrap(), b"hello");
    assert_eq!(dst.read("sub/b.txt").unwrap(), b"world");
    assert_eq!(dst.read("sub/deep/c.bin").unwrap(), vec![7u8; 100_000]);
    assert_eq!(fingerprint(&src), fingerprint(&dst));
}

#[test]
fn local_pull_roundtrip() {
    let (mut src, mut dst) = (Side::new(), Side::new());
    dst.edit("x.txt", b"remote-content");
    dst.edit("d/y.txt", b"nested");

    let summary = pull(&config(""), &mut src, &mut dst);
    assert_eq!(summary.files_transferred, 2);
    assert_eq!(src.read("x.txt").unwrap(), b"remote-content");
    assert_eq!(fingerprint(&src), fingerprint(&dst));
}

#[test]
fn idempotent_second_run_transfers_nothing() {
    let (mut src, mut dst) = (Side::new(), Side::new());
    src.edit("a.txt", b"hello");
    src.edit("b.txt", b"again");

    push(&config(""), &mut src, &mut dst, true);
    let second = push(&config(""), &mut src, &mut dst, true);
    assert_eq!(second.files_transferred, 0);
    assert_eq!(second.files_unchanged, 2);
}

#[test]
fn delete_semantics() {
    let (mut src, mut dst) = (Side::new(), Side::new());
    src.edit("keep.txt", b"k");
    dst.edit("extra.txt", b"e");
    dst.edit("junk.log", b"j");

    let cfg = config("*.log\n");
    push(&cfg, &mut src, &mut dst, false);
    assert!(dst.has("extra.txt"));

    push(&cfg, &mut src, &mut dst, true);
    assert!(!dst.has("extra.txt"));
    assert!(dst.has("junk.log"), "ignored file must never be deleted");
    assert!(dst.has("keep.txt"));
}

#[test]
fn ignore_end_to_end() {
    let (mut src, mut dst) = (Side::new(), Side::new());
    src.edit("app.rs", b"code");
    src.edit("debug.log", b"noise");
    src.edit(".gitignore", b"app.rs\n");

    push(&config("*.log\n"), &mut src, &mut dst, true);

    assert!(dst.has("app.rs"), "repo .gitignore must not affect sync");
    assert!(!dst.has("debug.log"), "config ignore must exclude");
}

#[test]
fn delta_efficiency_on_large_file() {
    let (mut src, mut dst) = (Side::new(), Side::new());
    let mut data = vec![0u8; 2_000_000];
    for (i, b) in data.iter_mut().enumerate() {
        *b = (i % 251) as u8;
    }
    src.edit("big.bin", &data);
    push(&config(""), &mut src, &mut dst, true);

    data[1_000_000] ^= 0xFF;
    data[1_000_001] ^= 0xFF;
    src.edit("big.bin", &data);
    let mut o = opts(SyncDirection::Push, true);
    o.checksum = true;
    let summary = sync(&config(""), &mut src, &mut dst, &o).unwrap();
    assert_eq!(summary.files_transferred, 1);
    assert!(
        summary.bytes_transferred < (data.len() as u64) / 5,
        "expected a delta much shorter than the file, sent {} of {}",
        summary.bytes_transferred,
        data.len()
    );
    assert_eq!(fingerprint(&src), fingerprint(&dst));
}

#[test]
fn end_state_guarantee_push_then_pull() {
    let (mut src, mut dst) = (Side::new(), Side::new());
    src.edit("a.txt", b"alpha");
    src.edit("dir/b.txt", b"beta");
    src.edit("dir/c.bin", &vec![3u8; 50_000]);

    push(&config(""), &mut src, &mut dst, true);

    let mut src2 = Side::new();
    pull(&config(""), &mut src2, &mut dst);
    assert_eq!(fingerprint(&src), fingerprint(&src2));
}

#[test]
fn dry_run_makes_no_changes() {
    let (mut src, mut dst) = (Side::new(), Side::new());
    src.edit("a.txt", b"hello");
    let mut o = opts(SyncDirection::Push, true);
    o.dry_run = true;
    let summary = sync(&config(""), &mut src, &mut dst, &o).unwrap();
    assert_eq!(summary.bytes_transferred, 0);
    assert!(!dst.has("a.txt"), "dry-run must not write");
}

#[test]
fn kinds_change_both_ways() {
    let (mut src, mut dst) = (Side::new(), Side::new());
    src.edit("was_dir", b"now a file");
    src.edit("was_file/inner", b"now below a directory");
    dst.nodes.insert("was_dir".to_string(), Node::Dir);
    dst.edit("was_file", b"old");
    push(&config(""), &mut src, &mut dst, true);
    assert_eq!(dst.read("was_dir").unwrap(), b"now a file");
    assert_eq!(dst.read("was_file/inner").unwrap(), b"now below a directory");
}

#[test]
fn a_file_takes_the_place_of_a_full_directory() {
    let (mut src, mut dst) = (Side::new(), Side::new());
    src.edit("x", b"a file");
    src.edit("y/z", b"another");
    dst.edit("x/inner", b"below");
    dst.edit("x/deep/er/file", b"far below");
    dst.edit("x/deep/other", b"below too");
    dst.edit("extra", b"elsewhere");
    let summary = push(&config(""), &mut src, &mut dst, true);
    assert_eq!(dst.read("x").unwrap(), b"a file");
    assert_eq!(summary.files_transferred, 2);
    assert_eq!(summary.files_deleted, 4);
    assert_eq!(fingerprint(&src), fingerprint(&dst));
    let second = push(&config(""), &mut src, &mut dst, true);
    assert_eq!((second.files_transferred, second.files_deleted), (0, 0));
    assert_eq!((second.total_bytes, second.files_unchanged), (0, 2));
}

#[test]
fn a_directory_that_has_to_stay_full_ends_the_run() {
    let (mut src, mut dst) = (Side::new(), Side::new());
    src.edit("x", b"a file");
    dst.edit("x/kept.log", b"ignored");
    let cfg = config("*.log\n");
    let e = sync(&cfg, &mut src, &mut dst, &opts(SyncDirection::Push, true)).unwrap_err();
    assert_eq!(e.message(), "io error at x: directory not empty");
    assert!(dst.has("x/kept.log"));

    let (mut src, mut dst) = (Side::new(), Side::new());
    src.edit("x", b"a file");
    dst.edit("x/inner", b"not to be deleted");
    let e = sync(&config(""), &mut src, &mut dst, &opts(SyncDirection::Push, false)).unwrap_err();
    assert_eq!(e.message(), "io error at x: directory not empty");
    assert!(dst.has("x/inner"));
}

#[test]
fn a_second_run_by_content_finds_nothing_to_do() {
    let (mut src, mut dst) = (Side::new(), Side::new());
    src.edit("a.txt", b"new!!");
    src.edit("d/b.txt", b"same");
    dst.clock += 1_000_000;
    dst.edit("a.txt", b"old!!");
    dst.edit("d/b.txt", b"same");
    dst.edit("extra", b"e");
    let mut o = opts(SyncDirection::Push, true);
    o.checksum = true;
    let first = sync(&config(""), &mut src, &mut dst, &o).unwrap();
    assert_eq!((first.files_transferred, first.files_deleted), (1, 1));
    assert_eq!((first.total_bytes, first.files_unchanged), (5, 1));
    let second = sync(&config(""), &mut src, &mut dst, &o).unwrap();
    assert_eq!((second.files_transferred, second.files_deleted), (0, 0));
    assert_eq!((second.total_bytes, second.files_unchanged), (0, 2));
    assert_eq!(fingerprint(&src), fingerprint(&dst));
}

#[test]
fn items_are_handed_out_as_planned() {
    let entry = |len, mtime, mode| FileEntry {
        rel_path: "d/a".to_string(),
        len,
        mtime,
        kind: EntryKind::File,
        mode,
    };
    let from = scan::index(vec![entry(7, 90_000, 0o640)]);
    let to = scan::index(vec![entry(8, 5, 0o600)]);
    let ignore = IgnoreSet::from_patterns("/src", "").unwrap();
    let plan = plan::build(&from, &to, &ignore, true, None);
    let run = Run::new(plan, &from, &vec![], SyncDirection::Push, true, false);
    match run.step() {
        Some(Step::Transfer(items)) => {
            assert_eq!(items.len(), 1);
            assert_eq!(items[0].rel, "d/a");
            assert_eq!((items[0].sender_len, items[0].sender_mtime), (7, 90_000));
            assert_eq!((items[0].sender_mode, items[0].basis_exists), (0o640, true));
        }
        other => panic!("{other:?}"),
    }
}

#[test]
fn emptied_directories_go_and_kept_ones_stay() {
    let (mut src, mut dst) = (Side::new(), Side::new());
    src.edit("a", b"a");
    dst.edit("old/deep/file", b"x");
    dst.edit("logs/kept.log", b"x");
    dst.edit("logs/gone.txt", b"x");
    dst.edit(".dsync/config.yaml", b"theirs");
    let summary = push(&config("*.log\n"), &mut src, &mut dst, true);
    assert_eq!(summary.files_deleted, 2);
    assert!(!dst.has("old"));
    assert!(dst.has("logs/kept.log"));
    assert!(!dst.has("logs/gone.txt"));
    assert!(dst.has(".dsync/config.yaml"));
}
