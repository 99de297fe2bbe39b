//! Reaching a tree on another machine: whom to connect to as whom, which keys to try, and the
//! command that starts the agent there.
use vstd::prelude::*;

use crate::config;
use crate::config::Remote;
use crate::config::RemoteView;
use crate::error::DsyncError;
use crate::error::ErrorView;
use crate::path;
use crate::text;
use crate::text::chars_of;
use crate::text::glue;
use crate::text::glue3;
use crate::text::show_u64;
use crate::transport::protocol::Request;
use crate::transport::protocol::PROTOCOL_VERSION;
use crate::transport::ssh_config;
use crate::transport::ssh_config::HostConfig;

verus! {

/// The port that is used when none is given anywhere.
pub const DEFAULT_PORT: u16 = 22;

/// Whom to connect to, as whom, and for which tree.
#[derive(Debug, Clone)]
pub struct Target {
    pub user: String,
    pub host: String,
    pub port: u16,
    /// A key file to try first.
    pub identity: Option<String>,
    pub path: String,
}

/// The user whose name is not given anywhere: the environment's, or else root.
pub open spec fn fallback_user(user: Option<Seq<char>>, logname: Option<Seq<char>>) -> Seq<char> {
    match user {
        Some(u) => u,
        None => match logname {
            Some(n) => n,
            None => "root"@,
        },
    }
}

/// The user whose name is not given anywhere. `user` and `logname` are the environment's `USER`
/// and `LOGNAME`.
pub fn whoami(user: Option<&str>, logname: Option<&str>) -> (r: String)
    ensures
        r@ == fallback_user(text::opt_str(user), text::opt_str(logname)),
{
    match user {
        Some(u) => u.to_owned(),
        None => match logname {
            Some(n) => n.to_owned(),
            None => "root".to_owned(),
        },
    }
}

/// The user to connect as: the remote's own, the configuration's, or `me`.
pub open spec fn user_for(
    given: Option<Seq<char>>,
    configured: Option<Seq<char>>,
    me: Seq<char>,
) -> Seq<char> {
    match given {
        Some(u) => u,
        None => match configured {
            Some(u) => u,
            None => me,
        },
    }
}

/// The port to connect to: the remote's own if one was given there, else the configuration's, or
/// 22. A remote without a port has 22, so any other number was given.
pub open spec fn port_for(port: u16, port_given: bool, configured: Option<u16>) -> u16 {
    if port_given || port != DEFAULT_PORT {
        port
    } else {
        match configured {
            Some(p) => p,
            None => DEFAULT_PORT,
        }
    }
}

/// The host to connect to: the one that the configuration gives for the remote's, or else that one.
pub open spec fn host_for(host: Seq<char>, configured: Option<Seq<char>>) -> Seq<char> {
    match configured {
        Some(h) => h,
        None => host,
    }
}

/// The configuration's name for a host counts, and the remote's own where there is none.
pub proof fn law_configured_host_counts(host: Seq<char>, configured: Seq<char>)
    ensures
        host_for(host, Some(configured)) == configured,
        host_for(host, None) == host,
{
}

/// A port that a remote's text names wins over the configuration, whatever its number; where none
/// is named, the configuration's counts, or else the usual one.
pub proof fn law_named_port_wins(s: Seq<char>, is_path: bool, configured: Option<u16>)
    ensures
        config::parsed(s, is_path) matches Ok(RemoteView::Ssh { port, .. }) ==> port_for(
            port,
            config::names_port(s),
            configured,
        ) == if config::names_port(s) {
            port
        } else {
            match configured {
                Some(p) => p,
                None => DEFAULT_PORT,
            }
        },
{
}

/// Where to connect for `remote`, with what the SSH configuration says of its host. What the
/// remote says itself comes first; `port_given` says whether its text names a port. `me` is the
/// user when neither names one.
pub fn resolve_target(remote: &Remote, port_given: bool, known: HostConfig, me: String) -> (r: Result<
    Target,
    DsyncError,
>)
    ensures
        match (remote@, r) {
            (RemoteView::Ssh { user, host, port, path }, Ok(t)) => {
                &&& t.user@ == user_for(user, known@.user, me@)
                &&& t.host@ == (match known@.hostname {
                    Some(h) => h,
                    None => host,
                })
                &&& t.host@ == host_for(host, known@.hostname)
                &&& t.port == port_for(port, port_given, known@.port)
                &&& text::opt(t.identity) == known@.identity_file
                &&& t.path@ == path
            },
            (RemoteView::Local { .. }, Err(e)) => e@ == ErrorView::Ssh("not an SSH remote"@),
            _ => false,
        },
{
    match remote {
        Remote::Ssh { user, host, port, path } => {
            let login = match user {
                Some(u) => u.clone(),
                None => match known.user {
                    Some(u) => u,
                    None => me,
                },
            };
            let name = match known.hostname {
                Some(h) => h,
                None => host.clone(),
            };
            let number: u16 = if port_given || *port != DEFAULT_PORT {
                *port
            } else {
                match known.port {
                    Some(p) => p,
                    None => DEFAULT_PORT,
                }
            };
            Ok(
                Target {
                    user: login,
                    host: name,
                    port: number,
                    identity: known.identity_file,
                    path: path.clone(),
                },
            )
        },
        Remote::Local { .. } => Err(DsyncError::Ssh("not an SSH remote".to_owned())),
    }
}

/// Whether a password may be asked for.
pub open spec fn may_ask(quiet: bool, terminal: bool) -> bool {
    terminal && !quiet
}

/// A password is asked for only where someone is there to answer and does not want quiet.
pub proof fn law_password_is_asked_of_someone(quiet: bool, terminal: bool)
    ensures
        !may_ask(quiet, false),
        !may_ask(true, terminal),
        may_ask(false, true),
{
}

/// Whether a password may be asked for: someone must be there, and not want quiet.
pub fn password_allowed(quiet: bool, terminal: bool) -> (r: bool)
    ensures
        r == may_ask(quiet, terminal),
        r == (!quiet && terminal),
{
    !quiet && terminal
}

/// What is asked when a password is needed.
pub fn password_prompt(user: &str, host: &str) -> (r: String)
    ensures
        r@ == user@ + "@"@ + host@ + "'s password"@,
{
    let mut out = glue3(user, "@", host);
    out.append("'s password");
    out
}

/// The same answer to each of `n` questions.
pub fn answers(password: &str, n: usize) -> (r: Vec<String>)
    ensures
        r@.len() == n,
        forall|i: int| 0 <= i < n ==> (#[trigger] r@[i])@ == password@,
{
    let mut out: Vec<String> = Vec::new();
    let mut i: usize = 0;
    while i < n
        invariant
            i <= n,
            out@.len() == i,
            forall|k: int| 0 <= k < i ==> (#[trigger] out@[k])@ == password@,
        decreases n - i,
    {
        out.push(password.to_owned());
        i = i + 1;
    }
    out
}

/// A way to prove who one is.
#[derive(Clone, Copy, Debug, PartialEq, Eq, Structural)]
pub enum Method {
    /// The keys of a running SSH agent.
    Agent,
    /// Key files.
    KeyFiles,
    /// A password that is asked for.
    Password,
}

/// What to do next to log in.
#[derive(Debug)]
pub enum Login {
    Try(Method),
    Accepted,
    Refused(DsyncError),
}

/// What is said when no method worked.
pub open spec fn login_complaint(user: Seq<char>) -> Seq<char> {
    "authentication failed for "@ + user
        + "; tried ssh-agent, key files (id_ed25519/id_rsa + ssh_config IdentityFile), and password (a password prompt is only shown on an interactive terminal)"@
}

/// The method after one that did not work.
pub open spec fn method_after(tried: Method, allow_password: bool) -> Option<Method> {
    match tried {
        Method::Agent => Some(Method::KeyFiles),
        Method::KeyFiles => if allow_password {
            Some(Method::Password)
        } else {
            None
        },
        Method::Password => None,
    }
}

/// The method to start with.
pub fn first_method() -> (r: Method)
    ensures
        r is Agent,
{
    Method::Agent
}

/// What to do when `tried` worked or did not. The methods come in a fixed order, and a password is
/// the last one, if it may be asked for.
pub fn after_method(tried: Method, worked: bool, user: &str, allow_password: bool) -> (r: Login)
    ensures
        if worked {
            r is Accepted
        } else {
            match method_after(tried, allow_password) {
                Some(m) => r == Login::Try(m),
                None => r matches Login::Refused(e) && e@ == ErrorView::Ssh(login_complaint(user@)),
            }
        },
{
    if worked {
        return Login::Accepted;
    }
    match tried {
        Method::Agent => Login::Try(Method::KeyFiles),
        Method::KeyFiles if allow_password => Login::Try(Method::Password),
        _ => {
            let m = glue3(
                "authentication failed for ",
                user,
                "; tried ssh-agent, key files (id_ed25519/id_rsa + ssh_config IdentityFile), and password (a password prompt is only shown on an interactive terminal)",
            );
            Login::Refused(DsyncError::Ssh(m))
        },
    }
}

/// The key files to try, in order: the configuration's, and the usual two in the home directory.
pub open spec fn key_paths(
    identity: Option<Seq<char>>,
    home: Option<Seq<char>>,
) -> Seq<Seq<char>> {
    let h = match home {
        Some(h) => h,
        None => "."@,
    };
    let ssh = path::under(h, ".ssh"@);
    let usual = seq![path::under(ssh, "id_ed25519"@), path::under(ssh, "id_rsa"@)];
    match identity {
        Some(i) => seq![i] + usual,
        None => usual,
    }
}

/// The key files to try with this home directory.
pub fn key_candidates_in(identity: Option<&str>, home: Option<&str>) -> (r: Vec<String>)
    ensures
        text::views(r@) == key_paths(text::opt_str(identity), text::opt_str(home)),
{
    let mut out: Vec<String> = Vec::new();
    if let Some(i) = identity {
        out.push(i.to_owned());
    }
    let h = match home {
        Some(h) => h,
        None => ".",
    };
    let ssh = path::join(h, ".ssh");
    out.push(path::join(ssh.as_str(), "id_ed25519"));
    out.push(path::join(ssh.as_str(), "id_rsa"));
    assert(text::views(out@) =~= key_paths(text::opt_str(identity), text::opt_str(home)));
    out
}

/// The key files to try, wherever the home directory is.
pub fn key_candidates(identity: Option<&str>) -> (r: Vec<String>)
    ensures
        exists|home: Option<Seq<u8>>|
            text::views(r@) == key_paths(
                text::opt_str(identity),
                #[trigger] ssh_config::home_text(home),
            ),
{
    let home = ssh_config::home_dir();
    let ghost at = choose|at: Option<Seq<u8>>|
        text::opt(home) == #[trigger] ssh_config::home_text(at);
    match home {
        Some(h) => {
            assert(ssh_config::home_text(at) == Some(h@));
            key_candidates_in(identity, Some(h.as_str()))
        },
        None => {
            assert(ssh_config::home_text(at) is None);
            key_candidates_in(identity, None)
        },
    }
}

/// What is known of a host's key.
#[derive(Clone, Copy, Debug, PartialEq, Eq, Structural)]
pub enum HostKey {
    /// It is on record, and the same.
    Known,
    /// The host is not on record.
    Unknown,
    /// Another key is on record.
    Changed,
}

/// Whether a host can be trusted: its key is on record, and the same.
pub open spec fn is_trusted(key: HostKey) -> bool {
    key is Known
}

/// A host that is not on record is not trusted, nor one with another key.
pub proof fn law_only_recorded_keys_are_trusted(key: HostKey)
    ensures
        is_trusted(HostKey::Known),
        !is_trusted(HostKey::Unknown),
        !is_trusted(HostKey::Changed),
{
}

/// Whether to go on with a host: only if its key is on record.
pub fn accepts(key: HostKey) -> (r: bool)
    ensures
        r == is_trusted(key),
        r == (key is Known),
{
    match key {
        HostKey::Known => true,
        _ => false,
    }
}

/// What to tell the user about a host that is not gone on with.
pub fn host_key_advice(key: HostKey, host: &str) -> (r: Option<String>)
    ensures
        match (key, r) {
            (HostKey::Known, None) => true,
            (HostKey::Unknown, Some(m)) => m@ == "host "@ + host@
                + " is not in known_hosts; connect to it with ssh once to record its key"@,
            (HostKey::Changed, Some(m)) => m@ == "known_hosts mismatch for "@ + host@,
            _ => false,
        },
{
    match key {
        HostKey::Known => None,
        HostKey::Unknown => Some(
            glue3(
                "host ",
                host,
                " is not in known_hosts; connect to it with ssh once to record its key",
            ),
        ),
        HostKey::Changed => Some(glue("known_hosts mismatch for ", host)),
    }
}

/// What a connection that could not be made comes to.
pub fn connect_failure(target: &Target, reason: &str) -> (r: DsyncError)
    ensures
        r@ == ErrorView::Ssh(
            "connect to "@ + target.host@ + ":"@ + text::decimal(target.port as nat) + " failed: "@
                + reason@,
        ),
{
    let mut m = glue3("connect to ", target.host.as_str(), ":");
    m.append(show_u64(target.port as u64).as_str());
    m.append(" failed: ");
    m.append(reason);
    DsyncError::Ssh(m)
}

/// The first message to an agent.
pub fn hello(compress: bool, level: i32) -> (r: Request)
    ensures
        r == (Request::Hello { version: PROTOCOL_VERSION, compress, level }),
{
    Request::Hello { version: PROTOCOL_VERSION, compress, level }
}

/// One character between single quotes: a single quote has to leave them.
pub open spec fn quoted_char(c: char) -> Seq<char> {
    if c == '\'' {
        seq!['\'', '\\', '\'', '\'']
    } else {
        seq![c]
    }
}

/// What stands between the outer quotes.
pub open spec fn quoted_body(s: Seq<char>) -> Seq<char>
    decreases s.len(),
{
    if s.len() == 0 {
        Seq::empty()
    } else {
        quoted_body(s.drop_last()) + quoted_char(s.last())
    }
}

/// `s` as one word of a POSIX shell, in single quotes.
pub open spec fn quoted(s: Seq<char>) -> Seq<char> {
    seq!['\''] + quoted_body(s) + seq!['\'']
}

/// What a POSIX shell makes of a word of single-quoted parts and of characters after a backslash.
/// `inside` says whether a quoted part is open.
pub open spec fn shell_word(s: Seq<char>, inside: bool) -> Option<Seq<char>>
    decreases s.len(),
{
    if s.len() == 0 {
        if inside {
            None
        } else {
            Some(Seq::empty())
        }
    } else if s[0] == '\'' {
        shell_word(s.drop_first(), !inside)
    } else if inside {
        match shell_word(s.drop_first(), true) {
            Some(w) => Some(seq![s[0]] + w),
            None => None,
        }
    } else if s[0] == '\\' && s.len() >= 2 {
        match shell_word(s.skip(2), false) {
            Some(w) => Some(seq![s[1]] + w),
            None => None,
        }
    } else {
        None
    }
}

proof fn lemma_shell_word_body(s: Seq<char>, rest: Seq<char>)
    ensures
        shell_word(quoted_body(s) + rest, true) == match shell_word(rest, true) {
            Some(w) => Some(s + w),
            None => None,
        },
    decreases s.len(),
{
    if s.len() == 0 {
        assert(quoted_body(s) + rest =~= rest);
        match shell_word(rest, true) {
            Some(w) => assert(s + w =~= w),
            None => {},
        }
    } else {
        let head = s.drop_last();
        let c = s.last();
        let tail = quoted_char(c) + rest;
        assert(quoted_body(s) + rest =~= quoted_body(head) + tail);
        lemma_shell_word_body(head, tail);
        if c == '\'' {
            let q = seq!['\'', '\\', '\'', '\''];
            assert(tail == q + rest);
            assert(tail[0] == '\'');
            let t1 = tail.drop_first();
            assert(t1[0] == '\\' && t1[1] == '\'');
            let t2 = t1.skip(2);
            assert(t2[0] == '\'');
            assert(t2.drop_first() =~= rest);
            assert(shell_word(t2, false) == shell_word(rest, true));
            assert(shell_word(tail, true) == shell_word(t1, false));
        } else {
            assert(tail[0] == c);
            assert(tail.drop_first() =~= rest);
        }
        match shell_word(rest, true) {
            Some(w) => {
                assert(shell_word(tail, true) == Some(seq![c] + w));
                assert(head + (seq![c] + w) =~= s + w);
            },
            None => {},
        }
    }
}

/// The shell on the other side gets the path as it is: quoting loses and adds nothing.
pub proof fn law_shell_reads_the_path_back(s: Seq<char>)
    ensures
        shell_word(quoted(s), false) == Some(s),
{
    let end = seq!['\''];
    let q = quoted(s);
    assert(q[0] == '\'');
    assert(q.drop_first() =~= quoted_body(s) + end);
    assert(end.drop_first().len() == 0);
    assert(shell_word(end.drop_first(), false) == Some(Seq::<char>::empty()));
    assert(shell_word(end, true) == Some(Seq::<char>::empty()));
    lemma_shell_word_body(s, end);
    assert(s + Seq::<char>::empty() =~= s);
}

/// `path` as one word of a POSIX shell.
pub fn shell_quote(path: &str) -> (r: String)
    ensures
        r@ == quoted(path@),
{
    let chars = chars_of(path);
    let mut out = String::new();
    out.push('\'');
    let mut i: usize = 0;
    assert(path@.take(0).len() == 0);
    assert(out@ =~= seq!['\''] + quoted_body(path@.take(0)));
    while i < chars.len()
        invariant
            i <= chars@.len(),
            chars@ == path@,
            out@ == seq!['\''] + quoted_body(path@.take(i as int)),
        decreases chars@.len() - i,
    {
        let ghost before = out@;
        let c = chars[i];
        proof {
            assert(path@.take(i + 1).drop_last() =~= path@.take(i as int));
            assert(path@.take(i + 1).last() == c);
        }
        if c == '\'' {
            out.push('\'');
            out.push('\\');
            out.push('\'');
            out.push('\'');
        } else {
            out.push(c);
        }
        assert(out@ =~= before + quoted_char(c));
        assert(out@ =~= seq!['\''] + quoted_body(path@.take(i + 1)));
        i = i + 1;
    }
    assert(path@.take(i as int) =~= path@);
    out.push('\'');
    assert(out@ =~= quoted(path@));
    out
}

/// The command that starts the agent for `path`.
pub fn agent_command(path: &str) -> (r: String)
    ensures
        r@ == "dsync --server "@ + quoted(path@),
{
    glue("dsync --server ", shell_quote(path).as_str())
}


/// What the remote says of the user comes before what the configuration says, and that before who
/// one is here; the environment's first name for that comes before its second, and that before
/// root.
pub proof fn law_nearest_user_counts(
    given: Seq<char>,
    configured: Option<Seq<char>>,
    me: Seq<char>,
    user: Option<Seq<char>>,
    logname: Option<Seq<char>>,
)
    ensures
        user_for(Some(given), configured, me) == given,
        user_for(None, Some(given), me) == given,
        user_for(None, None, me) == me,
        fallback_user(Some(given), logname) == given,
        fallback_user(None, Some(given)) == given,
        fallback_user(None, None) == "root"@,
{
}

/// A port that is given wins, and so does one other than 22; otherwise the configuration's counts,
/// and 22 if it has none.
pub proof fn law_nearest_port_counts(port: u16, configured: u16, known: Option<u16>)
    ensures
        port_for(port, true, known) == port,
        port != 22 ==> port_for(port, false, known) == port,
        port_for(22, false, Some(configured)) == configured,
        port_for(22, false, None) == 22,
{
}

/// The methods are tried in this order, each once: the agent, the key files, and a password if it may
/// be asked for.
pub proof fn law_methods_come_in_order(allow_password: bool)
    ensures
        method_after(Method::Agent, allow_password) == Some(Method::KeyFiles),
        method_after(Method::KeyFiles, true) == Some(Method::Password),
        method_after(Method::KeyFiles, false) is None,
        method_after(Method::Password, allow_password) is None,
{
}

/// The configured key is tried first; then the usual two in the home directory, or in the current
/// one if there is none.
pub proof fn law_configured_key_is_tried_first(identity: Seq<char>, h: Seq<char>)
    requires
        h.len() > 0,
        h[h.len() - 1] != '/',
    ensures
        key_paths(None, Some(h)) == seq![h + "/.ssh/id_ed25519"@, h + "/.ssh/id_rsa"@],
        key_paths(Some(identity), Some(h)) == seq![identity] + key_paths(None, Some(h)),
        key_paths(Some(identity), None) == seq![identity] + key_paths(None, None),
        key_paths(None, None) == key_paths(None, Some("."@)),
{
    reveal_strlit(".ssh");
    reveal_strlit("id_ed25519");
    reveal_strlit("id_rsa");
    reveal_strlit("/.ssh/id_ed25519");
    reveal_strlit("/.ssh/id_rsa");
    let d = ".ssh"@;
    assert(d[0] == '.' && d[3] == 'h');
    assert("id_ed25519"@[0] == 'i' && "id_rsa"@[0] == 'i');
    path::law_path_below_a_directory(h, d);
    let a = h + seq!['/'] + d;
    assert(a[a.len() - 1] == d[3]);
    path::law_path_below_a_directory(a, "id_ed25519"@);
    path::law_path_below_a_directory(a, "id_rsa"@);
    assert(a + seq!['/'] + "id_ed25519"@ =~= h + "/.ssh/id_ed25519"@);
    assert(a + seq!['/'] + "id_rsa"@ =~= h + "/.ssh/id_rsa"@);
    assert(key_paths(None, Some(h)) =~= seq![h + "/.ssh/id_ed25519"@, h + "/.ssh/id_rsa"@]);
}

/// Quoting changes nothing but single quotes: a text without them is put between two of them as it
/// is.
pub proof fn law_plain_text_is_quoted_as_it_is(s: Seq<char>)
    requires
        !s.contains('\''),
    ensures
        quoted(s) == seq!['\''] + s + seq!['\''],
{
    lemma_plain_body(s);
}

proof fn lemma_plain_body(s: Seq<char>)
    requires
        !s.contains('\''),
    ensures
        quoted_body(s) == s,
    decreases s.len(),
{
    if s.len() > 0 {
        let head = s.drop_last();
        assert(!head.contains('\'')) by {
            if head.contains('\'') {
                let k = choose|k: int| 0 <= k < head.len() && head[k] == '\'';
                assert(s[k] == '\'');
            }
        }
        lemma_plain_body(head);
        assert(s.contains(s[s.len() - 1]));
        assert(head + seq![s.last()] =~= s);
    } else {
        assert(quoted_body(s) =~= s);
    }
}

} // verus!
