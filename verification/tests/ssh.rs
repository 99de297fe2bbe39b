use dsync::config::port_is_named;
use dsync::config::Remote;
use dsync::transport::ssh::accepts;
use dsync::transport::ssh::after_method;
use dsync::transport::ssh::agent_command;
use dsync::transport::ssh::answers;
use dsync::transport::ssh::connect_failure;
use dsync::transport::ssh::first_method;
use dsync::transport::ssh::hello;
use dsync::transport::ssh::host_key_advice;
use dsync::transport::ssh::key_candidates;
use dsync::transport::ssh::key_candidates_in;
use dsync::transport::ssh::password_allowed;
use dsync::transport::ssh::password_prompt;
use dsync::transport::ssh::resolve_target;
use dsync::transport::ssh::shell_quote;
use dsync::transport::ssh::whoami;
use dsync::transport::ssh::HostKey;
use dsync::transport::ssh::Login;
use dsync::transport::ssh::Method;
use dsync::transport::ssh_config::expand_tilde;
use dsync::transport::ssh_config::glob_match;
use dsync::transport::ssh_config::host_block_matches;
use dsync::transport::ssh_config::parse_and_resolve;
use dsync::transport::ssh_config::resolve_with;
use dsync::transport::ssh_config::split_kv;
use dsync::transport::ssh_config::strip_comment;
use dsync::transport::ssh_config::HostConfig;

const SAMPLE: &str = "\
# global default
User globaluser

Host myvm
    HostName 10.0.0.5
    User deploy
    Port 2222
    IdentityFile ~/.ssh/myvm_key

Host *.internal
    User intern

Host prod !secret.prod
    HostName prod.example.com
";

#[test]
fn resolves_exact_alias() {
    let c = parse_and_resolve(SAMPLE, "myvm");
    assert_eq!(c.hostname.as_deref(), Some("10.0.0.5"));
    assert_eq!(c.user.as_deref(), Some("globaluser"));
    assert_eq!(c.port, Some(2222));
    assert!(c.identity_file.unwrap().ends_with(".ssh/myvm_key"));
}

#[test]
fn block_user_wins_when_no_earlier_global() {
    let cfg = "Host myvm\n  User deploy\n  HostName 10.0.0.5\nHost *\n  User fallback\n";
    let c = parse_and_resolve(cfg, "myvm");
    assert_eq!(c.user.as_deref(), Some("deploy"));
}

#[test]
fn unknown_alias_inherits_only_global() {
    let c = parse_and_resolve(SAMPLE, "nope");
    assert_eq!(c.hostname, None);
    assert_eq!(c.user.as_deref(), Some("globaluser"));
    assert_eq!(c.port, None);
}

#[test]
fn wildcard_block_matches() {
    let c = parse_and_resolve(SAMPLE, "db.internal");
    assert_eq!(c.user.as_deref(), Some("globaluser"));
    assert_eq!(c.hostname, None);
}

#[test]
fn negation_excludes_host() {
    assert!(host_block_matches("prod !secret.prod", "prod"));
    assert!(!host_block_matches("prod !secret.prod", "secret.prod"));
}

#[test]
fn glob_basics() {
    assert!(glob_match("*", "anything"));
    assert!(glob_match("*.internal", "db.internal"));
    assert!(!glob_match("*.internal", "db.external"));
    assert!(glob_match("h?st", "host"));
}

#[test]
fn equals_separator_and_quotes() {
    let c = parse_and_resolve("Host x\nHostName=\"example.com\"\n", "x");
    assert_eq!(c.hostname.as_deref(), Some("example.com"));
}

#[test]
fn more_globs() {
    assert!(glob_match("", ""));
    assert!(!glob_match("", "x"));
    assert!(glob_match("**", ""));
    assert!(!glob_match("?", ""));
    assert!(glob_match("a*b*c", "aXXbYYc"));
    assert!(!glob_match("a*b*c", "aXXcYYb"));
    assert!(glob_match("h?st", "h\u{f6}st"));
    assert!(!host_block_matches("* !b?d", "bad"));
    assert!(!host_block_matches("", "x"));
    assert!(!host_block_matches("!x", "y"));
}

#[test]
fn directives_are_split() {
    let split = |s: &str| split_kv(s);
    assert_eq!(split("User me"), Some(("User".to_string(), "me".to_string())));
    assert_eq!(split("Port = 22"), Some(("Port".to_string(), "22".to_string())));
    assert_eq!(split("A \"b c\""), Some(("A".to_string(), "b c".to_string())));
    assert_eq!(split("A \""), Some(("A".to_string(), "\"".to_string())));
    assert_eq!(split("A \"\""), None);
    assert_eq!(split("=x"), None);
    assert_eq!(split("Alone"), None);
    assert_eq!(split("A ="), None);
    assert_eq!(strip_comment("a # b"), "a ");
    assert_eq!(strip_comment("a"), "a");
}

#[test]
fn the_first_value_counts() {
    let text = "Host a\r\nPORT x\r\nPort 70000\r\nport 80\r\nport 81\r\nMatch all\r\nUser no\r\n\
        Host b\nUser other\nHost a\nUser late\nIdentityFile ~\nIdentityFile k\n";
    let c = resolve_with(text, "a", Some("/home/me"));
    assert_eq!(c.port, Some(80));
    assert_eq!(c.user.as_deref(), Some("late"));
    assert_eq!(c.identity_file.as_deref(), Some("/home/me"));
    let none = resolve_with(text, "z", None);
    assert_eq!((none.hostname, none.user, none.port, none.identity_file), (None, None, None, None));
}

#[test]
fn home_is_put_for_a_tilde() {
    assert_eq!(expand_tilde("~", Some("/h")), "/h");
    assert_eq!(expand_tilde("~/k", Some("/h")), "/h/k");
    assert_eq!(expand_tilde("~x/k", Some("/h")), "~x/k");
    assert_eq!(expand_tilde("~/k", None), "~/k");
    assert_eq!(expand_tilde("/k", Some("/h")), "/k");
}

fn known(hostname: Option<&str>, user: Option<&str>, port: Option<u16>) -> HostConfig {
    HostConfig {
        hostname: hostname.map(String::from),
        user: user.map(String::from),
        port,
        identity_file: Some("/key".to_string()),
    }
}

fn remote(user: Option<&str>, port: u16) -> Remote {
    Remote::Ssh { user: user.map(String::from), host: "vm".into(), port, path: "/p".into() }
}

#[test]
fn the_remote_goes_before_the_ssh_config() {
    let both = known(Some("h"), Some("c"), Some(7));
    let t = resolve_target(&remote(Some("u"), 99), true, both, "me".into()).unwrap();
    assert_eq!((t.user.as_str(), t.host.as_str(), t.port), ("u", "h", 99));
    assert_eq!((t.identity.as_deref(), t.path.as_str()), (Some("/key"), "/p"));
    let t = resolve_target(&remote(None, 22), false, known(None, Some("c"), Some(7)), "me".into());
    let t = t.unwrap();
    assert_eq!((t.user.as_str(), t.host.as_str(), t.port), ("c", "vm", 7));
    let t = resolve_target(&remote(None, 22), false, known(None, None, None), "me".into()).unwrap();
    assert_eq!((t.user.as_str(), t.host.as_str(), t.port), ("me", "vm", 22));
    assert_eq!(
        connect_failure(&t, "refused").message(),
        "ssh error: connect to vm:22 failed: refused"
    );
    let local = Remote::Local { path: "/x".into() };
    let e = resolve_target(&local, false, known(None, None, None), "me".into()).unwrap_err();
    assert_eq!(e.message(), "ssh error: not an SSH remote");
}

#[test]
fn a_port_in_the_remote_wins_even_if_it_is_the_usual_one() {
    for (text, port) in [("ssh://u@h:22/p", 22), ("ssh://u@h/p", 2222), ("ssh://u@h:23/p", 23)] {
        let remote = Remote::parse(text).unwrap();
        let cfg = known(None, Some("v"), Some(2222));
        let t = resolve_target(&remote, port_is_named(text), cfg, "me".into()).unwrap();
        assert_eq!((t.user.as_str(), t.port), ("u", port), "{text}");
    }
    assert!(port_is_named("  ssh://h:1"));
    assert!(!port_is_named("ssh://a:b@h/p:7"));
    assert!(!port_is_named("h:22"));
    assert!(!port_is_named("[::1]:22"));
    assert!(!port_is_named(""));
}

#[test]
fn who_one_is() {
    assert_eq!(whoami(Some("a"), Some("b")), "a");
    assert_eq!(whoami(None, Some("b")), "b");
    assert_eq!(whoami(None, None), "root");
}

#[test]
fn methods_are_tried_in_order() {
    assert_eq!(first_method(), Method::Agent);
    assert!(matches!(after_method(Method::Agent, false, "u", false), Login::Try(Method::KeyFiles)));
    assert!(matches!(after_method(Method::KeyFiles, false, "u", true), Login::Try(Method::Password)));
    assert!(matches!(after_method(Method::KeyFiles, true, "u", true), Login::Accepted));
    let text = "ssh error: authentication failed for u; tried ssh-agent, key files \
        (id_ed25519/id_rsa + ssh_config IdentityFile), and password \
        (a password prompt is only shown on an interactive terminal)";
    for (method, allowed) in [(Method::KeyFiles, false), (Method::Password, true)] {
        match after_method(method, false, "u", allowed) {
            Login::Refused(e) => assert_eq!(e.message(), text),
            other => panic!("{other:?}"),
        }
    }
    assert!(password_allowed(false, true));
    assert!(!password_allowed(true, true));
    assert!(!password_allowed(false, false));
    assert_eq!(password_prompt("u", "h"), "u@h's password");
    assert_eq!(answers("x", 3), ["x", "x", "x"]);
}

#[test]
fn key_files_to_try() {
    assert_eq!(
        key_candidates_in(Some("/k"), Some("/home/me")),
        ["/k", "/home/me/.ssh/id_ed25519", "/home/me/.ssh/id_rsa"]
    );
    assert_eq!(key_candidates_in(None, None), ["./.ssh/id_ed25519", "./.ssh/id_rsa"]);
    let found = key_candidates(Some("/k"));
    assert_eq!(found.len(), 3);
    assert!(found[1].ends_with(".ssh/id_ed25519"));
}

#[test]
fn only_known_hosts_are_accepted() {
    assert!(accepts(HostKey::Known));
    assert!(!accepts(HostKey::Unknown));
    assert!(!accepts(HostKey::Changed));
    assert_eq!(host_key_advice(HostKey::Known, "h"), None);
    assert!(host_key_advice(HostKey::Unknown, "h").unwrap().contains("not in known_hosts"));
    assert_eq!(host_key_advice(HostKey::Changed, "h").unwrap(), "known_hosts mismatch for h");
}

#[test]
fn paths_are_quoted_for_the_shell() {
    assert_eq!(shell_quote("/srv/app"), "'/srv/app'");
    assert_eq!(shell_quote(""), "''");
    assert_eq!(shell_quote("it's"), r"'it'\''s'");
    assert_eq!(shell_quote("'"), r"''\'''");
    assert_eq!(agent_command("/a b"), "dsync --server '/a b'");
    let text = format!("{:?}", hello(true, 5));
    assert_eq!(text, "Hello { version: 1, compress: true, level: 5 }");
}
