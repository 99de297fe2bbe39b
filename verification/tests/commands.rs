use dsync::cli::exit_code;
use dsync::cli::options_for;
use dsync::cli::resolve_threads;
use dsync::cli::server_root;
use dsync::cli::sync_options;
use dsync::cli::threads_for;
use dsync::cli::usage_error;
use dsync::cli::Command;
use dsync::cli::IgnoreAction;
use dsync::cli::RemoteAction;
use dsync::cli::SyncArgs;
use dsync::cli::USAGE_EXIT;
use dsync::config::Config;
use dsync::error::DsyncError;
use dsync::progress::human_bytes;
use dsync::progress::shorten;
use dsync::progress::summary_lines;
use dsync::sync::closing_line;
use dsync::sync::dry_run_lines;
use dsync::sync::dry_run_summary;
use dsync::sync::plan::SyncPlan;
use dsync::sync::plan::TransferItem;
use dsync::sync::SyncDirection;
use dsync::sync::SyncSummary;
use dsync::text;

#[test]
fn exit_codes() {
    assert_eq!(exit_code(&DsyncError::NotInitialized), 3);
    assert_eq!(exit_code(&DsyncError::AlreadyInitialized), 4);
    assert_eq!(exit_code(&DsyncError::Config("x".into())), 4);
    assert_eq!(exit_code(&DsyncError::Ssh("x".into())), 5);
    assert_eq!(exit_code(&DsyncError::Integrity("x".into())), 6);
    assert_eq!(exit_code(&DsyncError::Other("x".into())), 1);
}

#[test]
fn other_errors_exit_with_one() {
    assert_eq!(exit_code(&DsyncError::io("p", "r")), 1);
    assert_eq!(exit_code(&DsyncError::Protocol("x".into())), 5);
}

#[test]
fn errors_are_told_in_a_sentence() {
    let say = |e: DsyncError| e.message();
    assert_eq!(
        say(DsyncError::NotInitialized),
        "not a dsync directory: run `dsync init <path>` first"
    );
    assert_eq!(
        say(DsyncError::AlreadyInitialized),
        "already a dsync directory (use `dsync remote` to manage targets)"
    );
    assert_eq!(say(DsyncError::Config("x".into())), "config error: x");
    assert_eq!(say(DsyncError::io("p", "r")), "io error at p: r");
    assert_eq!(say(DsyncError::Ssh("x".into())), "ssh error: x");
    assert_eq!(say(DsyncError::Protocol("x".into())), "protocol error: x");
    assert_eq!(say(DsyncError::Integrity("x".into())), "integrity check failed for x");
    assert_eq!(say(DsyncError::Other("x".into())), "x");
}

#[test]
fn patterns_and_files_must_be_given() {
    let add = |patterns| Command::Ignore { action: IgnoreAction::Add { patterns } };
    let update = |files| Command::Ignore { action: IgnoreAction::Update { files } };
    assert_eq!(usage_error(&add(vec![])), Some("usage: dsync ignore add <patterns…>"));
    assert_eq!(usage_error(&update(vec![])), Some("usage: dsync ignore update <files…>"));
    assert_eq!(usage_error(&add(vec!["x".into()])), None);
    assert_eq!(usage_error(&update(vec!["x".into()])), None);
    assert_eq!(usage_error(&Command::Remote { action: RemoteAction::List }), None);
    assert_eq!(USAGE_EXIT, 2);
}

#[test]
fn threads_are_bounded() {
    assert_eq!(threads_for(0, 8), 8);
    assert_eq!(threads_for(0, 0), 1);
    assert_eq!(threads_for(5, 2), 5);
    assert_eq!(threads_for(8, 2), 8);
    assert_eq!(threads_for(9, 2), 8);
    assert_eq!(threads_for(usize::MAX, 1), 4);
    assert_eq!(threads_for(7, usize::MAX), 7);
    assert_eq!(resolve_threads(0), num_cpus::get());
    assert_eq!(resolve_threads(1), 1);
}

fn args() -> SyncArgs {
    SyncArgs {
        remote: None,
        dry_run: false,
        threads: None,
        transfer_threads: None,
        no_compress: false,
        checksum: false,
        delete: true,
        no_delete: false,
        quiet: false,
        verbose: 0,
    }
}

#[test]
fn the_command_line_goes_before_the_config() {
    let mut cfg = Config::seeded("/x".into());
    cfg.threads = 3;
    cfg.compression_level = 9;
    let o = options_for(SyncDirection::Pull, &args(), &cfg, 4);
    assert_eq!((o.threads, o.transfer_threads, o.compression_level), (3, 1, 9));
    assert!(o.compress && o.delete && !o.checksum && !o.quiet && !o.dry_run);
    assert_eq!(o.direction, SyncDirection::Pull);
    let mut a = args();
    a.threads = Some(100);
    a.transfer_threads = Some(0);
    a.no_compress = true;
    a.no_delete = true;
    a.checksum = true;
    let o = options_for(SyncDirection::Push, &a, &cfg, 4);
    assert_eq!((o.threads, o.transfer_threads), (16, 1));
    assert!(!o.compress && !o.delete && o.checksum);
    cfg.compression = false;
    a.transfer_threads = Some(6);
    let o = sync_options(SyncDirection::Push, &a, &cfg);
    assert_eq!(o.transfer_threads, 6);
    assert!(!o.compress);
}

#[test]
fn agents_are_asked_for_by_a_flag() {
    let root = |list: &[&str]| server_root(&list.iter().map(|s| s.to_string()).collect());
    assert_eq!(root(&["dsync", "--server", "/srv"]), Some("/srv".to_string()));
    assert_eq!(root(&["dsync", "--server"]), Some(".".to_string()));
    assert_eq!(root(&["dsync", "push"]), None);
    assert_eq!(root(&["dsync", "--server", "--server"]), Some("--server".to_string()));
}

fn by_float(n: u64) -> String {
    let units = ["B", "KiB", "MiB", "GiB", "TiB", "PiB"];
    let mut v = n as f64;
    let mut i = 0;
    while v >= 1024.0 && i < units.len() - 1 {
        v /= 1024.0;
        i += 1;
    }
    if i == 0 {
        format!("{n} B")
    } else {
        format!("{v:.1} {}", units[i])
    }
}

#[test]
fn bytes_for_reading() {
    assert_eq!(human_bytes(0), "0 B");
    assert_eq!(human_bytes(1023), "1023 B");
    assert_eq!(human_bytes(1024), "1.0 KiB");
    assert_eq!(human_bytes(1280), "1.2 KiB");
    assert_eq!(human_bytes(1792), "1.8 KiB");
    assert_eq!(human_bytes(134_637_158), "128.4 MiB");
    assert_eq!(human_bytes(u64::MAX), "16384.0 PiB");
    let mut n: u64 = 1;
    for k in 0..64u32 {
        let base = 1u64 << k;
        for d in [0, 1, 2, 3, base / 4, base / 2, base / 20, base / 8, base - 1] {
            for m in [base.wrapping_add(d), base.wrapping_sub(d), base.wrapping_add(n % base)] {
                assert_eq!(human_bytes(m), by_float(m), "{m}");
            }
            n = n.wrapping_mul(6_364_136_223_846_793_005).wrapping_add(1_442_695_040_888_963_407);
            assert_eq!(human_bytes(n), by_float(n), "{n}");
        }
    }
    let tie = (9u64 << 50) + (1 << 48);
    for m in [tie - 1, tie, tie + 1, tie + 2] {
        assert_eq!(human_bytes(m), by_float(m), "{m}");
    }
}

#[test]
fn long_paths_lose_their_middle() {
    let exact = "d/".repeat(18) + "name";
    assert_eq!(exact.len(), 40);
    assert_eq!(shorten(&exact), exact);
    let long = "directory/".repeat(5) + "name.txt";
    assert_eq!(shorten(&long), "directory/directory/directory...name.txt");
    assert_eq!(shorten(&long).len(), 40);
    let name = "n".repeat(60);
    assert_eq!(shorten(&format!("d/{name}")), format!("...{name}"));
    let wide = "\u{e9}".repeat(30) + "/f";
    assert_eq!(shorten(&wide), "\u{e9}".repeat(18) + "...f");
    assert_eq!(shorten(&"../".repeat(20)), "../".repeat(12) + "....");
}

fn summary() -> SyncSummary {
    SyncSummary {
        direction_label: "push",
        files_transferred: 42,
        files_deleted: 3,
        files_unchanged: 1024,
        symlinks_skipped: 0,
        bytes_transferred: 11 * 1024,
        total_bytes: 2 * 1024 * 1024,
        dry_run: false,
    }
}

#[test]
fn the_report_after_a_run() {
    let mut s = summary();
    assert_eq!(
        summary_lines(&s, "91", "3.20s", 2048),
        [
            "✓ Sync complete (push)",
            "  Files:    42 transferred, 3 deleted, 1024 unchanged",
            "  Data:     2.0 MiB changed → 11.0 KiB sent (91% saved by delta+zstd)",
            "  Time:     3.20s    Avg: 2.0 KiB/s",
        ]
    );
    s.symlinks_skipped = 2;
    assert_eq!(
        summary_lines(&s, "0", "1ms", 0)[4],
        "⚠ 2 symlinks skipped (not supported in v1)"
    );
    s.dry_run = true;
    assert!(summary_lines(&s, "0", "1ms", 0).is_empty());
}

#[test]
fn the_last_line_of_a_run_that_had_nothing_to_do() {
    let mut s = summary();
    assert_eq!(closing_line(&s, false), None);
    s.files_transferred = 0;
    assert_eq!(closing_line(&s, false), None);
    s.files_deleted = 0;
    assert_eq!(closing_line(&s, false), Some("Already in sync (0 changes)"));
    assert_eq!(closing_line(&s, true), None);
    s.dry_run = true;
    assert_eq!(closing_line(&s, false), None);
}

#[test]
fn the_report_of_a_dry_run() {
    let plan = SyncPlan {
        retype: vec![],
        create_dirs: vec![],
        transfer: vec![TransferItem {
            rel: "a".into(),
            sender_len: 5,
            sender_mtime: 0,
            sender_mode: 0,
            basis_exists: false,
        }],
        delete: vec!["b".into()],
        total_bytes: 5,
    };
    let heading = "dry-run: would transfer 1 file(s) (5 bytes), delete 1 file(s)";
    assert_eq!(dry_run_lines(&plan, false), [heading, "  transfer a", "  delete   b"]);
    assert_eq!(dry_run_lines(&plan, true), [heading]);
    let s = dry_run_summary(SyncDirection::Pull, true, &plan, 4, 2);
    assert_eq!((s.files_transferred, s.files_deleted, s.files_unchanged), (1, 1, 3));
    assert_eq!((s.symlinks_skipped, s.bytes_transferred, s.total_bytes), (2, 0, 5));
    assert!(s.dry_run);
    assert_eq!(s.direction_label, "pull");
    assert_eq!(dry_run_summary(SyncDirection::Push, false, &plan, 0, 0).files_deleted, 0);
}

#[test]
fn texts_are_taken_apart_as_std_does() {
    let samples = [
        "", " ", "a", "a\n", "a\r\nb", "\n\n", "a\r", " a b\t\u{a0}c ", "\u{2003}x\u{85}", "\r\n", "x\ny",
        "+", "+5", "65535", "65536", "007", "-1", "1_0", "\u{661}", "99999999999999999999",
    ];
    for s in samples {
        let lines: Vec<String> = s.lines().map(String::from).collect();
        assert_eq!(text::split_lines(s), lines, "{s:?}");
        let words: Vec<String> = s.split_whitespace().map(String::from).collect();
        assert_eq!(text::split_words(s), words, "{s:?}");
        assert_eq!(text::trim(s), s.trim(), "{s:?}");
        let chars: Vec<char> = s.chars().collect();
        assert_eq!(text::parse_u16(&chars, 0, chars.len()), s.parse::<u16>().ok(), "{s:?}");
        for t in samples {
            assert_eq!(text::comes_before(s, t), s < t, "{s:?} {t:?}");
        }
    }
    for code in 0..=0x3001u32 {
        if let Some(c) = char::from_u32(code) {
            assert_eq!(text::char_is_space(c), c.is_whitespace(), "{code:x}");
        }
    }
    for n in [0u64, 9, 10, 1234567890, u64::MAX] {
        assert_eq!(text::show_u64(n), n.to_string());
    }
    for n in [i32::MIN, -1, 0, 7] {
        assert_eq!(text::show_i32(n), n.to_string());
    }
}
