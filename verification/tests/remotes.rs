use dsync::config::candidate_roots;
use dsync::config::config_path;
use dsync::config::init;
use dsync::config::init_given;
use dsync::config::init_lines;
use dsync::config::malformed;
use dsync::config::parts_to_ask;
use dsync::config::place_given;
use dsync::config::read_failure;
use dsync::config::remote_add;
use dsync::config::remote_add_given;
use dsync::config::remote_list;
use dsync::config::remote_remove;
use dsync::config::validate_locations;
use dsync::config::validate_not_self_sync;
use dsync::config::Config;
use dsync::config::Remote;
use dsync::config::RemoteMap;
use dsync::error::DsyncError;

fn ssh(user: Option<&str>, host: &str, port: u16, path: &str) -> Remote {
    Remote::Ssh {
        user: user.map(|u| u.to_string()),
        host: host.to_string(),
        port,
        path: path.to_string(),
    }
}

fn local(path: &str) -> Remote {
    Remote::Local { path: path.to_string() }
}

#[test]
fn parse_local() {
    assert_eq!(
        Remote::parse("/backup/myproject").unwrap(),
        Remote::Local { path: "/backup/myproject".to_string() }
    );
    assert_eq!(
        Remote::parse("relative/path").unwrap(),
        Remote::Local { path: "relative/path".to_string() }
    );
}

#[test]
fn parse_ssh_user_host() {
    assert_eq!(
        Remote::parse("tuan@server.com:/srv/app").unwrap(),
        Remote::Ssh {
            user: Some("tuan".into()),
            host: "server.com".into(),
            port: 22,
            path: "/srv/app".into(),
        }
    );
}

#[test]
fn parse_ssh_no_user_relative() {
    assert_eq!(
        Remote::parse("server.com:relative/path").unwrap(),
        Remote::Ssh {
            user: None,
            host: "server.com".into(),
            port: 22,
            path: "relative/path".into(),
        }
    );
}

#[test]
fn parse_ipv6() {
    assert_eq!(
        Remote::parse("[2001:db8::1]:/path").unwrap(),
        Remote::Ssh {
            user: None,
            host: "2001:db8::1".into(),
            port: 22,
            path: "/path".into(),
        }
    );
}

#[test]
fn parse_ssh_url_with_port() {
    assert_eq!(
        Remote::parse("ssh://user@host:2222/path").unwrap(),
        Remote::Ssh {
            user: Some("user".into()),
            host: "host".into(),
            port: 2222,
            path: "/path".into(),
        }
    );
}

#[test]
fn windows_drive_is_local() {
    let r = Remote::parse("C:/Users/foo").unwrap();
    assert!(matches!(r, Remote::Local { .. }));
    assert!(r.is_local());
}

#[test]
fn select_default_and_unknown() {
    let cfg = Config::seeded("/tmp/dest".into());
    assert!(cfg.select_remote(None).is_ok());
    assert!(cfg.select_remote(Some("nope")).is_err());
}

#[test]
fn select_missing_default_errors() {
    let mut cfg = Config::seeded("/tmp/dest".into());
    cfg.remote.clear();
    assert!(cfg.select_remote(None).is_err());
}

#[test]
fn compression_level_validation() {
    let mut cfg = Config::seeded("/tmp/dest".into());
    cfg.compression_level = 25;
    assert!(cfg.validate().is_err());
}

#[test]
fn more_remote_texts() {
    let parse = |s: &str| Remote::parse_given(s, false).unwrap();
    assert_eq!(parse("  /padded \n"), local("/padded"));
    assert_eq!(parse("myvm:/data/test"), ssh(None, "myvm", 22, "/data/test"));
    assert_eq!(parse("a@b@c:/x"), ssh(Some("a"), "b@c", 22, "/x"));
    assert_eq!(parse("host:"), ssh(None, "host", 22, ""));
    assert_eq!(parse("host:a:b"), ssh(None, "host", 22, "a:b"));
    assert_eq!(parse("./a:b"), local("./a:b"));
    assert_eq!(parse(":x"), local(":x"));
    assert_eq!(parse("z:x"), local("z:x"));
    assert_eq!(parse("\u{e9}:x"), ssh(None, "\u{e9}", 22, "x"));
    assert_eq!(parse("me@[::1]:/p"), ssh(Some("me"), "::1", 22, "/p"));
    assert_eq!(parse("[::1]p"), ssh(None, "::1", 22, "p"));
    assert_eq!(parse("[]"), ssh(None, "", 22, ""));
    assert_eq!(parse("ssh://host"), ssh(None, "host", 22, "/"));
    assert_eq!(parse("ssh://host/a/b"), ssh(None, "host", 22, "/a/b"));
    assert_eq!(parse("ssh://u@h:+80/"), ssh(Some("u"), "h", 80, "/"));
    assert_eq!(parse("ssh://h:65535/x"), ssh(None, "h", 65535, "/x"));
}

#[test]
fn an_existing_path_is_no_host() {
    assert_eq!(Remote::parse_given("host:x", true).unwrap(), local("host:x"));
    assert_eq!(Remote::parse_given("[::1]:x", true).unwrap(), ssh(None, "::1", 22, "x"));
    let dir = tempfile::tempdir().unwrap();
    let text = format!("{}:rest", dir.path().display());
    assert_eq!(Remote::parse(&text).unwrap(), local(&text));
}

#[test]
fn bad_remote_texts() {
    let say = |s: &str| Remote::parse(s).unwrap_err().message();
    assert_eq!(say("   "), "config error: empty remote path");
    assert_eq!(say(" [::1"), "config error: unterminated IPv6 host in `[::1`");
    assert_eq!(say("ssh://h:65536/p"), "config error: invalid ssh port in `h:65536/p`");
    assert_eq!(say("ssh://h:/p"), "config error: invalid ssh port in `h:/p`");
    assert_eq!(say("ssh://h:x/p"), "config error: invalid ssh port in `h:x/p`");
}

#[test]
fn remotes_are_kept_in_order() {
    let mut map = RemoteMap::new();
    assert!(map.is_empty());
    for name in ["m", "b", "z", "a", "m2"] {
        map.insert(name.to_string(), format!("/{name}"));
    }
    map.insert("m".to_string(), "/new".to_string());
    let names: Vec<String> = (0..map.len()).map(|i| map.at(i).0.clone()).collect();
    assert_eq!(names, ["a", "b", "m", "m2", "z"]);
    assert_eq!(map.get("m").unwrap(), "/new");
    assert_eq!(map.remove("b"), Some("/b".to_string()));
    assert_eq!(map.remove("b"), None);
    assert!(!map.contains_key("b"));
    assert_eq!(map.len(), 4);
}

#[test]
fn a_config_is_checked() {
    let mut cfg = Config::seeded("/tmp/dest".into());
    assert!(cfg.validate().is_ok());
    assert_eq!(cfg.delta_size_cap, 536_870_912);
    cfg.compression_level = 0;
    assert_eq!(
        cfg.validate().unwrap_err().message(),
        "config error: compression_level must be between 1 and 19, got 0"
    );
    cfg.compression_level = -7;
    assert_eq!(
        cfg.validate().unwrap_err().message(),
        "config error: compression_level must be between 1 and 19, got -7"
    );
    cfg.compression_level = 19;
    assert!(cfg.validate().is_ok());
    cfg.remote.insert("b".to_string(), " ".to_string());
    cfg.remote.insert("a".to_string(), "\t".to_string());
    assert_eq!(
        cfg.validate().unwrap_err().message(),
        "config error: remote `a` has an empty path"
    );
}

#[test]
fn unknown_remotes_are_named() {
    let mut cfg = Config::seeded("/tmp/dest".into());
    assert_eq!(
        cfg.select_remote(Some("nope")).unwrap_err().message(),
        "config error: no such remote: nope"
    );
    remote_remove(&mut cfg, "default").unwrap();
    assert_eq!(
        cfg.select_remote(None).unwrap_err().message(),
        "config error: no default remote; pass a name or run `dsync remote add <name> <path>`"
    );
}

#[test]
fn remotes_are_added_and_removed() {
    let mut cfg = Config::seeded("/tmp/dest".into());
    let line = remote_add(&mut cfg, "/home/me/src", "staging", " user@host:/srv ").unwrap();
    assert_eq!(line, "Added remote `staging` -> user@host:/srv");
    assert_eq!(cfg.remote.get("staging").unwrap(), "user@host:/srv");
    assert_eq!(
        remote_add(&mut cfg, "/home/me/src", "staging", "/x").unwrap_err().message(),
        "config error: remote `staging` already exists (remove it first to change its path)"
    );
    assert!(remote_add(&mut cfg, "/home/me/src", "blank", "  ").is_err());
    assert_eq!(
        remote_list(&cfg),
        ["default (default) -> /tmp/dest", "staging -> user@host:/srv"]
    );
    assert_eq!(remote_remove(&mut cfg, "staging").unwrap(), "Removed remote `staging`");
    assert_eq!(
        remote_remove(&mut cfg, "staging").unwrap_err().message(),
        "config error: no such remote: staging"
    );
    remote_remove(&mut cfg, "default").unwrap();
    assert_eq!(remote_list(&cfg), ["(no remotes configured)"]);
}

#[test]
fn a_directory_is_set_up_once() {
    let cfg = init("/nowhere/src", false, " /nowhere/dest ").unwrap();
    assert_eq!(cfg.remote.get("default").unwrap(), "/nowhere/dest");
    assert!(cfg.validate().is_ok());
    assert!(matches!(
        init("/nowhere/src", true, "/nowhere/dest"),
        Err(DsyncError::AlreadyInitialized)
    ));
    assert!(matches!(init("/nowhere/src", false, ""), Err(DsyncError::Config(_))));
    assert_eq!(
        init_lines("/nowhere/src", " x "),
        ["Initialized dsync in /nowhere/src/.dsync/config.yaml", "  default -> x"]
    );
}

#[test]
fn a_directory_does_not_sync_into_itself() {
    let say = |r: Result<(), DsyncError>| r.unwrap_err().message();
    let text = "config error: remote path `sub` is inside the source directory; \
        a directory cannot sync into itself";
    assert_eq!(say(validate_locations(&local("sub"), "/src/sub", "/src")), text);
    assert_eq!(say(validate_locations(&local("sub"), "/", "/src")), text);
    assert!(validate_locations(&local("sub"), "/srcs", "/src").is_ok());
    assert!(validate_locations(&ssh(None, "h", 22, "/src"), "/src", "/src").is_ok());
    assert_eq!(say(validate_not_self_sync("/nowhere/src", &local("sub"))), text);
    assert!(validate_not_self_sync("/nowhere/src", &local("/nowhere/dest")).is_ok());
    let dir = tempfile::tempdir().unwrap();
    let root = dir.path().display().to_string();
    let round = format!("{root}/../{}", dir.path().file_name().unwrap().to_str().unwrap());
    assert!(validate_not_self_sync(&root, &local(&round)).is_err());
}

#[test]
fn a_remote_need_not_be_there_yet() {
    let dir = tempfile::tempdir().unwrap();
    let src = tempfile::tempdir_in(dir.path()).unwrap();
    let root = src.path().display().to_string();
    let name = src.path().file_name().unwrap().to_str().unwrap().to_string();
    assert!(validate_not_self_sync(&root, &local("../backup")).is_ok());
    assert!(validate_not_self_sync(&root, &local("../backup/deep/er")).is_ok());
    assert!(validate_not_self_sync(&root, &local("none/../../backup")).is_ok());
    assert!(validate_not_self_sync("/nowhere/src", &local("../backup")).is_ok());
    assert!(validate_not_self_sync(&root, &local("backup")).is_err());
    assert!(validate_not_self_sync(&root, &local("sub/../backup")).is_err());
    assert!(validate_not_self_sync(&root, &local(&format!("../{name}/new"))).is_err());
    assert!(validate_not_self_sync(&root, &local("../none/..")).is_err());
    let mut cfg = init(&root, false, "../backup").unwrap();
    assert_eq!(cfg.remote.get("default").unwrap(), "../backup");
    assert!(matches!(init(&root, false, "backup"), Err(DsyncError::Config(_))));
    remote_add(&mut cfg, &root, "far", " ../far ").unwrap();
    assert!(matches!(remote_add(&mut cfg, &root, "near", "near"), Err(DsyncError::Config(_))));
    assert!(!cfg.remote.contains_key("near"));
}

#[test]
fn places_are_settled_by_name_where_the_disk_knows_nothing() {
    let place = |p: &str, answers: &[Option<&str>]| {
        assert_eq!(parts_to_ask(p).len(), answers.len());
        place_given(p, &answers.iter().map(|a| a.map(|s| s.as_bytes().to_vec())).collect())
    };
    assert_eq!(place("/a/b/../c", &[None; 5]), "/a/c");
    assert_eq!(place("/a/../../c", &[None; 5]), "/c");
    assert_eq!(place("a/./b", &[None; 2]), "a/b");
    let root = Some("/");
    assert_eq!(place("/link/../c/d", &[root, None, None, None, None]), "/c/d");
    assert_eq!(place("/link/../c/d", &[root, Some("/real/dir"), None, None, None]), "/real/c/d");
    let above = Some("/elsewhere");
    assert_eq!(
        place("/link/../c/d", &[root, Some("/real/dir"), above, None, None]),
        "/elsewhere/c/d"
    );
    assert_eq!(place("/link/x", &[root, None, Some("/real/x")]), "/real/x");
    assert_eq!(place_given("/x", &vec![None, Some(b"/\xff".to_vec())]), "/\0\u{ff}");
}

#[test]
fn the_disk_is_asked_for_every_part() {
    assert_eq!(parts_to_ask("/a/../b"), ["/", "/a", "/a/..", "/a/../b"]);
    assert_eq!(parts_to_ask("a//b/"), ["a", "a/b"]);
    assert!(parts_to_ask("").is_empty());
}

#[test]
fn setting_up_goes_by_what_the_disk_says() {
    let cfg = init_given(false, " /dest ", false, "/dest", "/src").unwrap();
    assert_eq!(cfg.remote.get("default").unwrap(), "/dest");
    assert_eq!(cfg.remote.len(), 1);
    assert!(matches!(
        init_given(true, "/dest", false, "/dest", "/src"),
        Err(DsyncError::AlreadyInitialized)
    ));
    let inside = "config error: remote path `host:y` is inside the source directory; \
        a directory cannot sync into itself";
    let say = |r: Result<Config, DsyncError>| r.unwrap_err().message();
    assert_eq!(say(init_given(false, "host:y", true, "/src/host:y", "/src")), inside);
    assert!(init_given(false, "host:y", false, "/src/host:y", "/src").is_ok());
    assert_eq!(say(init_given(false, " ", false, "/", "/src")), "config error: empty remote path");
}

#[test]
fn adding_goes_by_what_the_disk_says() {
    let mut cfg = Config::seeded("/dest".into());
    let line = remote_add_given(&mut cfg, "b", " /b ", false, "/b", "/src").unwrap();
    assert_eq!(line, "Added remote `b` -> /b");
    assert_eq!(
        remote_add_given(&mut cfg, "c", "c", false, "/src/c", "/src").unwrap_err().message(),
        "config error: remote path `c` is inside the source directory; \
            a directory cannot sync into itself"
    );
    assert!(remote_add_given(&mut cfg, "b", "/e", false, "/e", "/src").is_err());
    assert!(remote_add_given(&mut cfg, "d", "", false, "/src", "/src").is_err());
    assert!(remote_add_given(&mut cfg, "h", "box:p", false, "/src/box:p", "/src").is_ok());
    assert_eq!(
        remote_list(&cfg),
        ["b -> /b", "default (default) -> /dest", "h -> box:p"]
    );
}

#[test]
fn the_config_is_looked_for_upwards() {
    assert_eq!(config_path("/a"), "/a/.dsync/config.yaml");
    assert_eq!(candidate_roots("/a/b/c"), ["/a/b/c", "/a/b", "/a", "/"]);
    assert_eq!(candidate_roots("/"), ["/"]);
    assert_eq!(candidate_roots("a/b"), ["a/b", "a", ""]);
}

#[test]
fn unreadable_configs() {
    assert!(matches!(read_failure("p", true, "gone"), DsyncError::NotInitialized));
    assert_eq!(read_failure("p", false, "denied").message(), "io error at p: denied");
    assert_eq!(malformed("p", "bad").message(), "config error: malformed p: bad");
}
