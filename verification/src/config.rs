//! The configuration of a source directory, and the remotes that it names.
use vstd::prelude::*;

use crate::error;
use crate::error::DsyncError;
use crate::error::ErrorView;
use crate::os_path;
use crate::path;
use crate::text;
use crate::text::chars_of;
use crate::text::find_char;
use crate::text::find_last_char;
use crate::text::glue;
use crate::text::glue3;
use crate::text::string_of;

verus! {

/// The directory that holds the configuration.
pub const DSYNC_DIR: &'static str = ".dsync";

/// The configuration's file.
pub const CONFIG_FILE: &'static str = "config.yaml";

/// The file that keeps the configuration out of version control.
pub const GITIGNORE_FILE: &'static str = ".gitignore";

/// The remote that is meant when none is named.
pub const DEFAULT_REMOTE: &'static str = "default";

/// The names and paths of a list of remotes.
pub open spec fn pair_views(v: Seq<(String, String)>) -> Seq<(Seq<char>, Seq<char>)> {
    Seq::new(v.len(), |i: int| (v[i].0@, v[i].1@))
}

/// Whether each name comes before the next.
pub open spec fn in_order(pairs: Seq<(Seq<char>, Seq<char>)>) -> bool {
    forall|i: int, j: int|
        0 <= i < j < pairs.len() ==> text::precedes(
            (#[trigger] pairs[i]).0,
            (#[trigger] pairs[j]).0,
        )
}

/// Whether a name is in the list.
pub open spec fn has_name(pairs: Seq<(Seq<char>, Seq<char>)>, name: Seq<char>) -> bool {
    exists|i: int| 0 <= i < pairs.len() && (#[trigger] pairs[i]).0 == name
}

/// The path for a name in the list.
pub open spec fn path_for(pairs: Seq<(Seq<char>, Seq<char>)>, name: Seq<char>) -> Seq<char> {
    pairs[choose|i: int| 0 <= i < pairs.len() && (#[trigger] pairs[i]).0 == name].1
}

/// Remotes by name, in the order of their names.
#[derive(Debug, Clone)]
pub struct RemoteMap {
    entries: Vec<(String, String)>,
}

impl View for RemoteMap {
    type V = Map<Seq<char>, Seq<char>>;

    open spec fn view(&self) -> Map<Seq<char>, Seq<char>> {
        Map::new(
            |name: Seq<char>| has_name(self.order(), name),
            |name: Seq<char>| path_for(self.order(), name),
        )
    }
}

proof fn lemma_path_for(pairs: Seq<(Seq<char>, Seq<char>)>, i: int)
    requires
        in_order(pairs),
        0 <= i < pairs.len(),
    ensures
        has_name(pairs, pairs[i].0),
        path_for(pairs, pairs[i].0) == pairs[i].1,
{
    let name = pairs[i].0;
    assert(has_name(pairs, name));
    let k = choose|k: int| 0 <= k < pairs.len() && (#[trigger] pairs[k]).0 == name;
    text::lemma_precedes_strict(name, name);
    if k < i {
        assert(text::precedes(pairs[k].0, pairs[i].0));
    } else if k > i {
        assert(text::precedes(pairs[i].0, pairs[k].0));
    }
}

impl RemoteMap {
    /// Names and paths, in the order of the names.
    pub closed spec fn order(&self) -> Seq<(Seq<char>, Seq<char>)> {
        pair_views(self.entries@)
    }

    /// The names are in order, and so each is there once.
    pub closed spec fn wf(&self) -> bool {
        in_order(self.order())
    }

    /// What being well formed means.
    pub proof fn lemma_in_order(&self)
        requires
            self.wf(),
        ensures
            in_order(self.order()),
    {
    }

    /// No remotes.
    pub fn new() -> (r: RemoteMap)
        ensures
            r.wf(),
            r.order().len() == 0,
            r@ == Map::<Seq<char>, Seq<char>>::empty(),
    {
        let r = RemoteMap { entries: Vec::new() };
        assert(r@ =~= Map::<Seq<char>, Seq<char>>::empty());
        r
    }

    /// How many remotes there are.
    pub fn len(&self) -> (r: usize)
        ensures
            r == self.order().len(),
    {
        self.entries.len()
    }

    /// Whether there are no remotes.
    pub fn is_empty(&self) -> (r: bool)
        ensures
            r == (self.order().len() == 0),
    {
        self.entries.len() == 0
    }

    /// The name and the path of the `i`th remote.
    pub fn at(&self, i: usize) -> (r: (&String, &String))
        requires
            i < self.order().len(),
        ensures
            (r.0@, r.1@) == self.order()[i as int],
    {
        let e = &self.entries[i];
        (&e.0, &e.1)
    }

    /// The first place whose name does not come before `name`, and whether `name` is there.
    fn place(&self, name: &str) -> (r: (usize, bool))
        requires
            self.wf(),
        ensures
            r.0 <= self.entries@.len(),
            forall|k: int| 0 <= k < r.0 ==> text::precedes((#[trigger] self.order()[k]).0, name@),
            r.1 ==> r.0 < self.entries@.len() && self.order()[r.0 as int].0 == name@,
            !r.1 ==> forall|k: int|
                r.0 <= k < self.entries@.len() ==> text::precedes(
                    name@,
                    (#[trigger] self.order()[k]).0,
                ),
            r.1 == has_name(self.order(), name@),
    {
        let mut i: usize = 0;
        while i < self.entries.len() && text::comes_before(self.entries[i].0.as_str(), name)
            invariant
                i <= self.entries@.len(),
                forall|k: int|
                    0 <= k < i ==> text::precedes((#[trigger] self.order()[k]).0, name@),
            decreases self.entries@.len() - i,
        {
            assert(self.order()[i as int].0 == self.entries@[i as int].0@);
            i = i + 1;
        }
        let found = i < self.entries.len() && text::same(self.entries[i].0.as_str(), name);
        proof {
            let order = self.order();
            if i < self.entries@.len() {
                assert(order[i as int].0 == self.entries@[i as int].0@);
                text::lemma_precedes_total(order[i as int].0, name@);
            }
            if found {
                assert(has_name(order, name@));
            } else {
                assert forall|k: int| i <= k < self.entries@.len() implies text::precedes(
                    name@,
                    (#[trigger] order[k]).0,
                ) by {
                    if k > i {
                        assert(text::precedes(order[i as int].0, order[k].0));
                        text::lemma_precedes_transitive(name@, order[i as int].0, order[k].0);
                    }
                }
                text::lemma_precedes_strict(name@, name@);
                if has_name(order, name@) {
                    let k = choose|k: int| 0 <= k < order.len() && (#[trigger] order[k]).0 == name@;
                    if k < i {
                        assert(text::precedes(order[k].0, name@));
                    } else {
                        assert(text::precedes(name@, order[k].0));
                    }
                }
            }
        }
        (i, found)
    }

    /// The path of the remote `name`.
    pub fn get(&self, name: &str) -> (r: Option<&String>)
        requires
            self.wf(),
        ensures
            match r {
                Some(p) => self@.contains_key(name@) && p@ == self@[name@],
                None => !self@.contains_key(name@),
            },
    {
        let (i, found) = self.place(name);
        if found {
            proof {
                lemma_path_for(self.order(), i as int);
            }
            Some(&self.entries[i].1)
        } else {
            None
        }
    }

    /// Whether there is a remote `name`.
    pub fn contains_key(&self, name: &str) -> (r: bool)
        requires
            self.wf(),
        ensures
            r == self@.contains_key(name@),
    {
        self.get(name).is_some()
    }

    /// Puts the remote `name` at `path`, in place of an earlier one of that name.
    pub fn insert(&mut self, name: String, path: String)
        requires
            old(self).wf(),
        ensures
            final(self).wf(),
            final(self)@ == old(self)@.insert(name@, path@),
    {
        let (i, found) = self.place(name.as_str());
        let ghost before = self.order();
        let ghost n = name@;
        let ghost p = path@;
        if found {
            self.entries.set(i, (name, path));
            let ghost after = self.order();
            proof {
                assert(after =~= before.update(i as int, (n, p)));
                assert forall|a: int, b: int| 0 <= a < b < after.len() implies text::precedes(
                    (#[trigger] after[a]).0,
                    (#[trigger] after[b]).0,
                ) by {
                    assert(text::precedes(before[a].0, before[b].0));
                }
                assert forall|m: Seq<char>| #[trigger] has_name(after, m) <==> has_name(before, m) by {
                    if has_name(after, m) {
                        let k = choose|k: int| 0 <= k < after.len() && (#[trigger] after[k]).0 == m;
                        assert(before[k].0 == m);
                    }
                    if has_name(before, m) {
                        let k = choose|k: int|
                            0 <= k < before.len() && (#[trigger] before[k]).0 == m;
                        assert(after[k].0 == m);
                    }
                }
                assert forall|m: Seq<char>| has_name(before, m) implies #[trigger] path_for(after, m)
                    == if m == n {
                    p
                } else {
                    path_for(before, m)
                } by {
                    let k = choose|k: int| 0 <= k < before.len() && (#[trigger] before[k]).0 == m;
                    assert(after[k].0 == m);
                    lemma_path_for(before, k);
                    lemma_path_for(after, k);
                    if m == n {
                        lemma_path_for(after, i as int);
                    } else {
                        assert(k != i);
                    }
                }
                assert(self@ =~= old(self)@.insert(n, p));
            }
        } else {
            self.entries.insert(i, (name, path));
            let ghost after = self.order();
            proof {
                assert(after =~= before.insert(i as int, (n, p)));
                assert forall|a: int, b: int| 0 <= a < b < after.len() implies text::precedes(
                    (#[trigger] after[a]).0,
                    (#[trigger] after[b]).0,
                ) by {
                    if b < i {
                        assert(text::precedes(before[a].0, before[b].0));
                    } else if b == i {
                        assert(text::precedes(before[a].0, n));
                    } else if a == i {
                        assert(text::precedes(n, before[b - 1].0));
                    } else if a < i {
                        assert(text::precedes(before[a].0, before[b - 1].0));
                    } else {
                        assert(text::precedes(before[a - 1].0, before[b - 1].0));
                    }
                }
                assert forall|m: Seq<char>| #[trigger] has_name(after, m) <==> (has_name(before, m) || m
                    == n) by {
                    if has_name(after, m) {
                        let k = choose|k: int| 0 <= k < after.len() && (#[trigger] after[k]).0 == m;
                        if k < i {
                            assert(before[k].0 == m);
                        } else if k > i {
                            assert(before[k - 1].0 == m);
                        }
                    }
                    if has_name(before, m) {
                        let k = choose|k: int|
                            0 <= k < before.len() && (#[trigger] before[k]).0 == m;
                        if k < i {
                            assert(after[k].0 == m);
                        } else {
                            assert(after[k + 1].0 == m);
                        }
                    }
                    assert(after[i as int].0 == n);
                }
                lemma_path_for(after, i as int);
                assert forall|m: Seq<char>| has_name(before, m) && m != n implies #[trigger] path_for(
                    after,
                    m,
                ) == path_for(before, m) by {
                    let k = choose|k: int| 0 <= k < before.len() && (#[trigger] before[k]).0 == m;
                    lemma_path_for(before, k);
                    if k < i {
                        assert(after[k].0 == m);
                        lemma_path_for(after, k);
                    } else {
                        assert(after[k + 1].0 == m);
                        lemma_path_for(after, k + 1);
                    }
                }
                assert(self@ =~= old(self)@.insert(n, p));
            }
        }
    }

    /// Removes the remote `name`, and says what its path was.
    pub fn remove(&mut self, name: &str) -> (r: Option<String>)
        requires
            old(self).wf(),
        ensures
            final(self).wf(),
            final(self)@ == old(self)@.remove(name@),
            match r {
                Some(p) => old(self)@.contains_key(name@) && p@ == old(self)@[name@],
                None => !old(self)@.contains_key(name@),
            },
    {
        let (i, found) = self.place(name);
        let ghost before = self.order();
        if !found {
            assert(self@ =~= old(self)@.remove(name@));
            return None;
        }
        let e = self.entries.remove(i);
        let ghost after = self.order();
        proof {
            assert(after =~= before.remove(i as int));
            lemma_path_for(before, i as int);
            assert forall|a: int, b: int| 0 <= a < b < after.len() implies text::precedes(
                (#[trigger] after[a]).0,
                (#[trigger] after[b]).0,
            ) by {
                let a2 = if a < i {
                    a
                } else {
                    a + 1
                };
                let b2 = if b < i {
                    b
                } else {
                    b + 1
                };
                assert(text::precedes(before[a2].0, before[b2].0));
            }
            assert forall|m: Seq<char>| #[trigger] has_name(after, m) <==> (has_name(before, m) && m
                != name@) by {
                if has_name(after, m) {
                    let k = choose|k: int| 0 <= k < after.len() && (#[trigger] after[k]).0 == m;
                    let k2 = if k < i {
                        k
                    } else {
                        k + 1
                    };
                    assert(before[k2].0 == m);
                    text::lemma_precedes_strict(m, m);
                    if k2 < i {
                        assert(text::precedes(before[k2].0, before[i as int].0));
                    } else {
                        assert(text::precedes(before[i as int].0, before[k2].0));
                    }
                }
                if has_name(before, m) && m != name@ {
                    let k = choose|k: int| 0 <= k < before.len() && (#[trigger] before[k]).0 == m;
                    if k < i {
                        assert(after[k].0 == m);
                    } else {
                        assert(after[k - 1].0 == m);
                    }
                }
            }
            assert forall|m: Seq<char>| has_name(after, m) implies #[trigger] path_for(after, m)
                == path_for(before, m) by {
                let k = choose|k: int| 0 <= k < after.len() && (#[trigger] after[k]).0 == m;
                lemma_path_for(after, k);
                if k < i {
                    lemma_path_for(before, k);
                } else {
                    lemma_path_for(before, k + 1);
                }
            }
            assert(self@ =~= old(self)@.remove(name@));
        }
        Some(e.1)
    }

    /// Removes all remotes.
    pub fn clear(&mut self)
        ensures
            final(self).wf(),
            final(self)@ == Map::<Seq<char>, Seq<char>>::empty(),
    {
        self.entries.clear();
        assert(self@ =~= Map::<Seq<char>, Seq<char>>::empty());
    }
}

/// Whether data is compressed when nothing says otherwise.
pub fn default_true() -> (r: bool)
    ensures
        r,
{
    true
}

/// The compression level when nothing says otherwise.
pub fn default_level() -> (r: i32)
    ensures
        r == 3,
{
    3
}

/// The longest file that goes as a delta when nothing says otherwise: 512 mebibytes.
pub fn default_delta_cap() -> (r: u64)
    ensures
        r == 512 * 1024 * 1024,
{
    536_870_912
}

/// The configuration of a source directory.
#[derive(Debug, Clone)]
pub struct Config {
    /// The remotes: names, and paths as they were given.
    pub remote: RemoteMap,
    /// Patterns for what stays out of a sync, one to a line.
    pub ignore: String,
    pub compression: bool,
    pub compression_level: i32,
    /// How many files are worked on at a time; as many as there are processors if 0.
    pub threads: usize,
    /// Longer files do not go as deltas.
    pub delta_size_cap: u64,
}

/// The first remote whose path is blank, if any is.
pub open spec fn first_blank(pairs: Seq<(Seq<char>, Seq<char>)>) -> Option<Seq<char>>
    decreases pairs.len(),
{
    if pairs.len() == 0 {
        None
    } else {
        match first_blank(pairs.drop_last()) {
            Some(name) => Some(name),
            None => if text::trimmed(pairs.last().1).len() == 0 {
                Some(pairs.last().0)
            } else {
                None
            },
        }
    }
}

/// What is wrong with a configuration, if anything is: its compression level, or a remote without
/// a path.
pub open spec fn fault(cfg: &Config) -> Option<ErrorView> {
    if !(1 <= cfg.compression_level <= 19) {
        Some(
            ErrorView::Config(
                "compression_level must be between 1 and 19, got "@ + text::signed_decimal(
                    cfg.compression_level as int,
                ),
            ),
        )
    } else {
        match first_blank(cfg.remote.order()) {
            Some(name) => Some(
                ErrorView::Config("remote `"@ + name + "` has an empty path"@),
            ),
            None => None,
        }
    }
}

/// The path of the configuration's file under a source directory.
pub open spec fn config_file(root: Seq<char>) -> Seq<char> {
    path::under(path::under(root, DSYNC_DIR@), CONFIG_FILE@)
}

/// The path of the configuration's file under a source directory.
pub fn config_path(root: &str) -> (r: String)
    ensures
        r@ == config_file(root@),
{
    path::join(path::join(root, DSYNC_DIR).as_str(), CONFIG_FILE)
}

/// A directory and the directories above it, from the inside out.
pub open spec fn upward(start: Seq<char>) -> Seq<Seq<char>> {
    let cs = path::comps(start);
    let top = if path::rooted(start) {
        1int
    } else {
        0int
    };
    let above = if cs.len() > top {
        (cs.len() - top) as nat
    } else {
        0
    };
    seq![start] + Seq::new(above, |i: int| path::joined(cs.take(cs.len() - 1 - i)))
}

/// The directories in which the configuration for `start` is looked for, the first one first.
pub fn candidate_roots(start: &str) -> (r: Vec<String>)
    ensures
        text::views(r@) == upward(start@),
{
    let parts = path::components(start);
    let ghost cs = path::comps(start@);
    proof {
        path::lemma_comps_proper(start@);
        assert(text::views(parts@).len() == parts@.len());
    }
    let top: usize = if path::is_absolute(start) {
        1
    } else {
        0
    };
    let mut out: Vec<String> = Vec::new();
    out.push(start.to_owned());
    let ghost all = upward(start@);
    assert(text::views(out@) =~= all.take(1));
    let mut k: usize = parts.len();
    while k > top
        invariant
            k <= parts@.len(),
            text::views(parts@) == cs,
            cs == path::comps(start@),
            cs.len() == parts@.len(),
            path::proper(cs),
            top == if path::rooted(start@) {
                1int
            } else {
                0int
            },
            all == upward(start@),
            parts@.len() > top ==> k >= top,
            parts@.len() > top ==> all.len() == 1 + parts@.len() - top,
            parts@.len() <= top ==> all.len() == 1 && k == parts@.len(),
            text::views(out@) == all.take(1 + parts@.len() - k),
        decreases k,
    {
        k = k - 1;
        let ghost before = text::views(out@);
        out.push(path::join_components(&parts, k));
        proof {
            let i = parts@.len() - k;
            assert(all[i] == path::joined(cs.take(k as int)));
            assert(text::views(out@) =~= before.push(all[i]));
            assert(all.take(1 + i) =~= all.take(i).push(all[i]));
        }
    }
    assert(all.take(all.len() as int) =~= all);
    out
}

/// What a configuration that could not be read comes to: the directory is not set up, or the
/// operating system's reason.
pub fn read_failure(path: &str, not_found: bool, reason: &str) -> (r: DsyncError)
    ensures
        r@ == if not_found {
            ErrorView::NotInitialized
        } else {
            ErrorView::Io { path: path@, source: reason@ }
        },
{
    if not_found {
        DsyncError::NotInitialized
    } else {
        DsyncError::io(path, reason)
    }
}

/// What a configuration that could not be understood comes to.
pub fn malformed(path: &str, reason: &str) -> (r: DsyncError)
    ensures
        r@ == ErrorView::Config("malformed "@ + path@ + ": "@ + reason@),
{
    let mut m = glue3("malformed ", path, ": ");
    m.append(reason);
    DsyncError::Config(m)
}

/// A sync target.
#[derive(Debug, Clone, PartialEq, Eq)]
pub enum Remote {
    /// A directory on this machine.
    Local { path: String },
    /// A directory on another one. The host may be an alias, and the port 22 may stand for none.
    Ssh { user: Option<String>, host: String, port: u16, path: String },
}

/// A sync target, with texts as sequences of characters.
pub enum RemoteView {
    Local { path: Seq<char> },
    Ssh { user: Option<Seq<char>>, host: Seq<char>, port: u16, path: Seq<char> },
}

impl View for Remote {
    type V = RemoteView;

    open spec fn view(&self) -> RemoteView {
        match self {
            Remote::Local { path } => RemoteView::Local { path: path@ },
            Remote::Ssh { user, host, port, path } => RemoteView::Ssh {
                user: text::opt(*user),
                host: host@,
                port: *port,
                path: path@,
            },
        }
    }
}

/// The user in front of the first `@`, if there is one, and the host.
pub open spec fn user_and_host(s: Seq<char>) -> (Option<Seq<char>>, Seq<char>) {
    let n = text::find(s, '@');
    if n < s.len() {
        (Some(s.take(n)), s.skip(n + 1))
    } else {
        (None, s)
    }
}

/// The user in front of the first `@`, if there is one, and the host.
fn split_user_host(chars: &Vec<char>, from: usize, to: usize) -> (r: (Option<String>, usize))
    requires
        from <= to <= chars@.len(),
    ensures
        from <= r.1 <= to,
        user_and_host(chars@.subrange(from as int, to as int)) == (
            text::opt(r.0),
            chars@.subrange(r.1 as int, to as int),
        ),
{
    let ghost s = chars@.subrange(from as int, to as int);
    let n = find_char(chars, from, to, '@');
    if n < to {
        assert(chars@.subrange(from as int, n as int) =~= s.take(n - from));
        assert(chars@.subrange(n + 1, to as int) =~= s.skip(n - from + 1));
        (Some(string_of(chars, from, n)), n + 1)
    } else {
        (None, from)
    }
}

/// Whether `s` is one ASCII letter, as in front of the colon of a Windows path.
pub open spec fn drive_letter(s: Seq<char>) -> bool {
    s.len() == 1 && ('a' <= s[0] <= 'z' || 'A' <= s[0] <= 'Z')
}

fn is_windows_drive(chars: &Vec<char>, to: usize) -> (r: bool)
    requires
        to <= chars@.len(),
    ensures
        r == drive_letter(chars@.take(to as int)),
{
    to == 1 && (('a' <= chars[0] && chars[0] <= 'z') || ('A' <= chars[0] && chars[0] <= 'Z'))
}

/// What `[user@]host[:port]/path` stands for. The path is the root if it is missing.
pub open spec fn ssh_url(rest: Seq<char>) -> Result<RemoteView, ErrorView> {
    let slash = text::find(rest, '/');
    let (user, hostport) = user_and_host(rest.take(slash));
    let path = if slash < rest.len() {
        rest.skip(slash)
    } else {
        seq!['/']
    };
    match text::find_last(hostport, ':') {
        None => Ok(RemoteView::Ssh { user, host: hostport, port: 22, path }),
        Some(i) => match text::u16_of(hostport.skip(i + 1)) {
            Some(port) => Ok(RemoteView::Ssh { user, host: hostport.take(i), port, path }),
            None => Err(ErrorView::Config("invalid ssh port in `"@ + rest + "`"@)),
        },
    }
}

/// Whether the text of a remote names a port: only one that starts with `ssh://` can.
pub open spec fn names_port(s: Seq<char>) -> bool {
    let t = text::trimmed(s);
    let rest = t.skip(6);
    &&& "ssh://"@.is_prefix_of(t)
    &&& text::find_last(user_and_host(rest.take(text::find(rest, '/'))).1, ':') is Some
}

/// Whether the text of a remote names a port.
pub fn port_is_named(s: &str) -> (r: bool)
    ensures
        r == names_port(s@),
{
    let t = text::trim(s);
    let chars = chars_of(t.as_str());
    if !text::starts_with(&chars, "ssh://") {
        return false;
    }
    proof {
        reveal_strlit("ssh://");
    }
    let len = chars.len();
    let ghost rest = chars@.skip(6);
    assert(chars@.subrange(6, len as int) =~= rest);
    let slash = find_char(&chars, 6, len, '/');
    assert(chars@.subrange(6, slash as int) =~= rest.take(slash - 6));
    let (_, start) = split_user_host(&chars, 6, slash);
    find_last_char(&chars, start, slash, ':').is_some()
}

/// Reads what follows `ssh://`.
fn parse_ssh_url(chars: &Vec<char>, from: usize) -> (r: Result<Remote, DsyncError>)
    requires
        from <= chars@.len(),
    ensures
        error::outcome(r) == ssh_url(chars@.skip(from as int)),
{
    let ghost rest = chars@.skip(from as int);
    let len = chars.len();
    assert(chars@.subrange(from as int, len as int) =~= rest);
    let slash = find_char(chars, from, len, '/');
    let path = if slash < len {
        assert(chars@.subrange(slash as int, len as int) =~= rest.skip(slash - from));
        string_of(chars, slash, len)
    } else {
        let mut root = String::new();
        root.push('/');
        assert(root@ =~= seq!['/']);
        root
    };
    assert(chars@.subrange(from as int, slash as int) =~= rest.take(slash - from));
    let (user, start) = split_user_host(chars, from, slash);
    let ghost hostport = chars@.subrange(start as int, slash as int);
    match find_last_char(chars, start, slash, ':') {
        None => Ok(Remote::Ssh { user, host: string_of(chars, start, slash), port: 22, path }),
        Some(i) => {
            assert(chars@.subrange(i + 1, slash as int) =~= hostport.skip(i - start + 1));
            assert(chars@.subrange(start as int, i as int) =~= hostport.take(i - start));
            match text::parse_u16(chars, i + 1, slash) {
                Some(port) => Ok(Remote::Ssh { user, host: string_of(chars, start, i), port, path }),
                None => {
                    let all = string_of(chars, from, len);
                    Err(DsyncError::Config(glue3("invalid ssh port in `", all.as_str(), "`")))
                },
            }
        },
    }
}

/// Where a host in brackets starts, and the user in front of it.
pub open spec fn bracketed_host(s: Seq<char>) -> Option<(Option<Seq<char>>, Seq<char>)> {
    let n = text::find(s, '@');
    if n < s.len() && s.skip(n + 1).len() > 0 && s.skip(n + 1)[0] == '[' {
        Some((Some(s.take(n)), s.skip(n + 1)))
    } else if s.len() > 0 && s[0] == '[' {
        Some((None, s))
    } else {
        None
    }
}

/// `s` without one colon at its start.
pub open spec fn without_colon(s: Seq<char>) -> Seq<char> {
    if s.len() > 0 && s[0] == ':' {
        s.skip(1)
    } else {
        s
    }
}

/// What `[user@][host]:path` stands for, if `s` has that form. A bracket must be closed.
pub open spec fn bracketed(s: Seq<char>) -> Option<Result<RemoteView, ErrorView>> {
    match bracketed_host(s) {
        None => None,
        Some((user, rest)) => {
            let close = text::find(rest, ']');
            Some(
                if close >= rest.len() {
                    Err(ErrorView::Config("unterminated IPv6 host in `"@ + s + "`"@))
                } else {
                    Ok(
                        RemoteView::Ssh {
                            user,
                            host: rest.subrange(1, close),
                            port: 22,
                            path: without_colon(rest.skip(close + 1)),
                        },
                    )
                },
            )
        },
    }
}

/// Finds a host in brackets: where it starts, and the user in front of it.
fn find_bracket(chars: &Vec<char>) -> (r: Option<(Option<String>, usize)>)
    ensures
        match r {
            Some((user, start)) => {
                &&& start < chars@.len()
                &&& chars@[start as int] == '['
                &&& bracketed_host(chars@) == Some((text::opt(user), chars@.skip(start as int)))
            },
            None => bracketed_host(chars@) is None,
        },
{
    let len = chars.len();
    assert(chars@.subrange(0, len as int) =~= chars@);
    let n = find_char(chars, 0, len, '@');
    if n < len && n + 1 < len && chars[n + 1] == '[' {
        assert(chars@.subrange(0, n as int) =~= chars@.take(n as int));
        Some((Some(string_of(chars, 0, n)), n + 1))
    } else if len > 0 && chars[0] == '[' {
        assert(chars@.skip(0) =~= chars@);
        Some((None, 0))
    } else {
        None
    }
}

/// Reads a host in brackets, if there is one.
fn parse_bracketed_ipv6(chars: &Vec<char>) -> (r: Option<Result<Remote, DsyncError>>)
    ensures
        match r {
            Some(x) => bracketed(chars@) == Some(error::outcome(x)),
            None => bracketed(chars@) is None,
        },
{
    let len = chars.len();
    let (user, start) = match find_bracket(chars) {
        Some(found) => found,
        None => {
            return None;
        },
    };
    let ghost rest = chars@.skip(start as int);
    assert(chars@.subrange(start as int, len as int) =~= rest);
    let close = find_char(chars, start, len, ']');
    if close == len {
        let all = string_of(chars, 0, len);
        assert(all@ =~= chars@);
        let e = DsyncError::Config(glue3("unterminated IPv6 host in `", all.as_str(), "`"));
        return Some(Err(e));
    }
    let host = string_of(chars, start + 1, close);
    assert(host@ =~= rest.subrange(1, close - start));
    let ghost after = rest.skip(close - start + 1);
    let tail: usize = if close + 1 < len && chars[close + 1] == ':' {
        close + 2
    } else {
        close + 1
    };
    let path = string_of(chars, tail, len);
    assert(path@ =~= without_colon(after));
    Some(Ok(Remote::Ssh { user, host, port: 22, path }))
}

/// Whether what stands before the first colon may be a host: it is not empty, no drive letter,
/// and has no slash.
pub open spec fn may_be_host(before: Seq<char>) -> bool {
    before.len() > 0 && !drive_letter(before) && !before.contains('/')
}

/// What a remote's text stands for. `is_path` says whether what stands before the first colon is
/// a path that exists here.
pub open spec fn parsed(s: Seq<char>, is_path: bool) -> Result<RemoteView, ErrorView> {
    let t = text::trimmed(s);
    let colon = text::find(t, ':');
    if t.len() == 0 {
        Err(ErrorView::Config("empty remote path"@))
    } else if "ssh://"@.is_prefix_of(t) {
        ssh_url(t.skip(6))
    } else if bracketed(t) is Some {
        bracketed(t)->0
    } else if colon < t.len() && may_be_host(t.take(colon)) && !is_path {
        let (user, host) = user_and_host(t.take(colon));
        Ok(RemoteView::Ssh { user, host, port: 22, path: t.skip(colon + 1) })
    } else {
        Ok(RemoteView::Local { path: t })
    }
}

/// Whether the text of a remote leaves it to the disk what it stands for.
pub open spec fn asks_the_disk(s: Seq<char>) -> bool {
    let t = text::trimmed(s);
    let colon = text::find(t, ':');
    &&& t.len() > 0
    &&& !"ssh://"@.is_prefix_of(t)
    &&& bracketed(t) is None
    &&& colon < t.len()
    &&& may_be_host(t.take(colon))
}

/// `std::path::Path::exists`: whether there is something at `p` on this machine. What it says
/// depends on the disk, and is left open.
#[verifier::external_body]
fn path_exists(p: &str) -> (r: bool) {
    std::path::Path::new(p).exists()
}

/// What stands before the first colon, if it may be a host.
fn host_part(t: &str) -> (r: Option<String>)
    ensures
        ({
            let colon = text::find(t@, ':');
            match r {
                Some(h) => colon < t@.len() && may_be_host(t@.take(colon)) && h@ == t@.take(colon),
                None => !(colon < t@.len() && may_be_host(t@.take(colon))),
            }
        }),
{
    let chars = chars_of(t);
    let len = chars.len();
    assert(chars@.subrange(0, len as int) =~= t@);
    let n = find_char(&chars, 0, len, ':');
    if n == len || n == 0 || is_windows_drive(&chars, n) {
        return None;
    }
    let slash = find_char(&chars, 0, n, '/');
    let ghost before = t@.take(n as int);
    assert(chars@.subrange(0, n as int) =~= before);
    if slash < n {
        assert(before[slash as int] == '/');
        return None;
    }
    assert(!before.contains('/')) by {
        if before.contains('/') {
            let k = choose|k: int| 0 <= k < before.len() && before[k] == '/';
            assert(chars@[k] == '/');
        }
    }
    Some(string_of(&chars, 0, n))
}

impl Remote {
    /// Reads the text of a remote. `is_path` says whether what stands before the first colon is a
    /// path that exists here.
    pub fn parse_given(s: &str, is_path: bool) -> (r: Result<Remote, DsyncError>)
        ensures
            error::outcome(r) == parsed(s@, is_path),
    {
        let t = text::trim(s);
        let chars = chars_of(t.as_str());
        let len = chars.len();
        if len == 0 {
            return Err(DsyncError::Config("empty remote path".to_owned()));
        }
        if text::starts_with(&chars, "ssh://") {
            proof {
                reveal_strlit("ssh://");
            }
            return parse_ssh_url(&chars, 6);
        }
        if let Some(r) = parse_bracketed_ipv6(&chars) {
            return r;
        }
        let before = host_part(t.as_str());
        if before.is_some() && !is_path {
            assert(chars@.subrange(0, len as int) =~= t@);
            let colon = find_char(&chars, 0, len, ':');
            assert(chars@.subrange(0, colon as int) =~= t@.take(colon as int));
            assert(chars@.subrange(colon + 1, len as int) =~= t@.skip(colon + 1));
            let (user, start) = split_user_host(&chars, 0, colon);
            return Ok(
                Remote::Ssh {
                    user,
                    host: string_of(&chars, start, colon),
                    port: 22,
                    path: string_of(&chars, colon + 1, len),
                },
            );
        }
        Ok(Remote::Local { path: t })
    }

    /// Reads the text of a remote. Where it could be a host as well as a path on this machine, it
    /// is the path if there is something at that path.
    pub fn parse(s: &str) -> (r: Result<Remote, DsyncError>)
        ensures
            exists|is_path: bool| error::outcome(r) == #[trigger] parsed(s@, is_path),
            !asks_the_disk(s@) ==> error::outcome(r) == parsed(s@, true) && error::outcome(r)
                == parsed(s@, false),
    {
        let t = text::trim(s);
        let is_path = match host_part(t.as_str()) {
            Some(h) => path_exists(h.as_str()),
            None => false,
        };
        let r = Remote::parse_given(s, is_path);
        assert(error::outcome(r) == parsed(s@, is_path));
        r
    }

    /// Whether this is a directory on this machine.
    pub fn is_local(&self) -> (r: bool)
        ensures
            r == (self is Local),
    {
        match self {
            Remote::Local { .. } => true,
            _ => false,
        }
    }
}

/// Whether one of two directories lies in the other.
pub open spec fn overlap(a: Seq<char>, b: Seq<char>) -> bool {
    path::within(a, b) || path::within(b, a)
}

/// What is wrong with a remote for a source directory, `target` and `source` being where the two
/// really are: a local remote must not lie in the source directory, nor the reverse.
pub open spec fn self_sync_fault(
    remote: RemoteView,
    target: Seq<char>,
    source: Seq<char>,
) -> Option<ErrorView> {
    match remote {
        RemoteView::Local { path } => if overlap(target, source) {
            Some(
                ErrorView::Config(
                    "remote path `"@ + path
                        + "` is inside the source directory; a directory cannot sync into itself"@,
                ),
            )
        } else {
            None
        },
        RemoteView::Ssh { .. } => None,
    }
}

/// `std::path::Path::canonicalize`: where `p` really is, if there is something, as the operating
/// system's bytes. What it says depends on the disk, and is left open. It knows no text in which a
/// byte is marked.
#[verifier::external_body]
fn canonical(p: &str) -> (r: Option<Vec<u8>>) {
    match std::path::Path::new(p).canonicalize() {
        Ok(c) => Some(c.into_os_string().into_encoded_bytes()),
        Err(_) => None,
    }
}

/// Refuses a local remote that lies in the source directory, or the reverse, going by where the
/// two really are.
pub fn validate_locations(remote: &Remote, target: &str, source: &str) -> (r: Result<(), DsyncError>)
    ensures
        error::failure(r) == self_sync_fault(remote@, target@, source@),
{
    if let Remote::Local { path } = remote {
        if path::starts_with(target, source) || path::starts_with(source, target) {
            return Err(
                DsyncError::Config(
                    glue3(
                        "remote path `",
                        path.as_str(),
                        "` is inside the source directory; a directory cannot sync into itself",
                    ),
                ),
            );
        }
    }
    Ok(())
}

/// The answers of the disk, byte by byte.
pub open spec fn replies(v: Seq<Option<Vec<u8>>>) -> Seq<Option<Seq<u8>>> {
    Seq::new(
        v.len(),
        |i: int|
            match v[i] {
                Some(b) => Some(b@),
                None => None,
            },
    )
}

/// The parts of `p` from its front on, each one component longer than the one before.
pub open spec fn parts_of(p: Seq<char>) -> Seq<Seq<char>> {
    Seq::new(path::comps(p).len(), |i: int| path::joined(path::comps(p).take(i + 1)))
}

/// How many components of a path the disk knows, from the front, and where they are: the longest
/// part that has an answer counts.
pub open spec fn known_part(answers: Seq<Option<Seq<u8>>>) -> Option<(nat, Seq<u8>)>
    decreases answers.len(),
{
    if answers.len() == 0 {
        None
    } else {
        match answers.last() {
            Some(base) => Some((answers.len(), base)),
            None => known_part(answers.drop_last()),
        }
    }
}

/// Where `p` really is, given where the disk says that each of its parts is: the longest part with
/// an answer is there, and the rest goes by the names alone.
pub open spec fn place_of(p: Seq<char>, answers: Seq<Option<Seq<u8>>>) -> Seq<char> {
    match known_part(answers) {
        Some((k, base)) => path::joined(
            path::settled(path::comps(os_path::path_text(base)), path::comps(p).skip(k as int)),
        ),
        None => path::joined(path::settled(Seq::empty(), path::comps(p))),
    }
}

/// Whether there is an answer for each part of `p`, be it that the disk does not know it.
pub open spec fn answers_for(p: Seq<char>, answers: Seq<Option<Seq<u8>>>) -> bool {
    answers.len() == path::comps(p).len()
}

/// The parts of `p` from its front on, each one component longer than the one before.
pub fn parts_to_ask(p: &str) -> (r: Vec<String>)
    ensures
        text::views(r@) == parts_of(p@),
{
    let parts = path::components(p);
    let ghost all = parts_of(p@);
    let mut out: Vec<String> = Vec::new();
    let mut k: usize = 0;
    proof {
        path::lemma_comps_proper(p@);
        assert(text::views(parts@).len() == parts@.len());
        assert(text::views(out@) =~= all.take(0));
    }
    while k < parts.len()
        invariant
            k <= parts@.len() == all.len(),
            text::views(parts@) == path::comps(p@),
            path::proper(path::comps(p@)),
            all == parts_of(p@),
            text::views(out@) == all.take(k as int),
        decreases parts@.len() - k,
    {
        let ghost before = text::views(out@);
        let part = path::join_components(&parts, k + 1);
        assert(part@ == all[k as int]);
        out.push(part);
        assert(text::views(out@) =~= before.push(all[k as int]));
        assert(all.take(k + 1) =~= all.take(k as int).push(all[k as int]));
        k = k + 1;
    }
    assert(all.take(k as int) =~= all);
    out
}

/// Where `p` really is, given where the disk says that each of its parts is.
pub fn place_given(p: &str, answers: &Vec<Option<Vec<u8>>>) -> (r: String)
    requires
        answers_for(p@, replies(answers@)),
    ensures
        r@ == place_of(p@, replies(answers@)),
{
    let parts = path::components(p);
    let ghost all = replies(answers@);
    proof {
        path::lemma_comps_proper(p@);
        assert(text::views(parts@).len() == parts@.len());
        assert(all.take(all.len() as int) =~= all);
    }
    let mut k: usize = answers.len();
    while k > 0
        invariant
            k <= answers@.len() == path::comps(p@).len(),
            path::comps(p@).len() == parts@.len(),
            text::views(parts@) == path::comps(p@),
            path::proper(path::comps(p@)),
            all == replies(answers@),
            known_part(all) == known_part(all.take(k as int)),
        decreases k,
    {
        proof {
            assert(all.take(k as int).last() == all[k - 1]);
            assert(all.take(k as int).drop_last() =~= all.take(k - 1));
        }
        if let Some(base) = &answers[k - 1] {
            assert(all[k - 1] == Some(base@));
            let at = os_path::to_text(base);
            return path::settle(at.as_str(), &parts, k);
        }
        assert(all[k - 1] is None);
        k = k - 1;
    }
    proof {
        assert(all.take(0).len() == 0);
        assert(path::comps(p@).skip(0) =~= path::comps(p@));
        path::lemma_comps_joined(Seq::empty());
        reveal_strlit("");
        assert(""@ =~= path::joined(Seq::empty()));
    }
    path::settle("", &parts, 0)
}

/// Where `p` really is: the disk is asked for each of its parts.
fn locate(p: &str) -> (r: String)
    ensures
        exists|answers: Seq<Option<Seq<u8>>>|
            answers_for(p@, answers) && r@ == #[trigger] place_of(p@, answers),
{
    let parts = parts_to_ask(p);
    let mut answers: Vec<Option<Vec<u8>>> = Vec::new();
    let mut k: usize = 0;
    assert(text::views(parts@).len() == parts@.len());
    while k < parts.len()
        invariant
            k <= parts@.len(),
            answers@.len() == k,
        decreases parts@.len() - k,
    {
        answers.push(canonical(parts[k].as_str()));
        k = k + 1;
    }
    let r = place_given(p, &answers);
    assert(r@ == place_of(p@, replies(answers@)));
    r
}

/// The answers of a disk that knows nothing of `p`.
fn no_answers(p: &str) -> (r: Vec<Option<Vec<u8>>>)
    ensures
        answers_for(p@, replies(r@)),
        forall|i: int| 0 <= i < r@.len() ==> #[trigger] r@[i] is None,
{
    let parts = path::components(p);
    let mut answers: Vec<Option<Vec<u8>>> = Vec::new();
    let mut k: usize = 0;
    assert(text::views(parts@).len() == parts@.len());
    while k < parts.len()
        invariant
            k <= parts@.len(),
            answers@.len() == k,
            forall|i: int| 0 <= i < k ==> #[trigger] answers@[i] is None,
        decreases parts@.len() - k,
    {
        answers.push(None);
        k = k + 1;
    }
    answers
}

/// What is wrong with a remote for the source directory `root`, given what the disk knows of the
/// two.
pub open spec fn self_sync_outcome(
    root: Seq<char>,
    remote: RemoteView,
    target: Seq<Option<Seq<u8>>>,
    source: Seq<Option<Seq<u8>>>,
) -> Option<ErrorView> {
    match remote {
        RemoteView::Local { path } => self_sync_fault(
            remote,
            place_of(path::under(root, path), target),
            place_of(root, source),
        ),
        RemoteView::Ssh { .. } => None,
    }
}

/// Refuses a local remote that lies in the source directory, or the reverse. Both are looked up
/// on the disk, as far as it knows them; a remote need not be there yet.
pub fn validate_not_self_sync(src_root: &str, remote: &Remote) -> (r: Result<(), DsyncError>)
    ensures
        remote is Ssh ==> r is Ok,
        remote@ matches RemoteView::Local { path } ==> exists|
            target: Seq<Option<Seq<u8>>>,
            source: Seq<Option<Seq<u8>>>,
        |
            {
                &&& answers_for(path::under(src_root@, path), target)
                &&& answers_for(src_root@, source)
                &&& error::failure(r) == #[trigger] self_sync_outcome(
                    src_root@,
                    remote@,
                    target,
                    source,
                )
            },
{
    match remote {
        Remote::Local { path } => {
            let abs = path::join(src_root, path.as_str());
            let target = locate(abs.as_str());
            let source = locate(src_root);
            let r = validate_locations(remote, target.as_str(), source.as_str());
            proof {
                let t = choose|t: Seq<Option<Seq<u8>>>|
                    answers_for(abs@, t) && target@ == #[trigger] place_of(abs@, t);
                let s = choose|s: Seq<Option<Seq<u8>>>|
                    answers_for(src_root@, s) && source@ == #[trigger] place_of(src_root@, s);
                assert(error::failure(r) == self_sync_outcome(src_root@, remote@, t, s));
            }
            r
        },
        Remote::Ssh { .. } => Ok(()),
    }
}

/// A remote beside the source directory that is not there yet is not taken for one in it: going by
/// the names alone, and where the disk knows the source directory and the one that holds both.
#[verifier::spinoff_prover]
#[verifier::rlimit(40)]
pub proof fn law_sibling_is_no_self_sync(
    root: Seq<char>,
    name: Seq<char>,
    target: Seq<Option<Seq<u8>>>,
    source: Seq<Option<Seq<u8>>>,
)
    requires
        path::normal(root) == root,
        path::rooted(root),
        path::comps(root).len() >= 2,
        forall|i: int|
            0 <= i < path::comps(root).len() ==> #[trigger] path::comps(root)[i] != seq!['.', '.'],
        name.len() > 0,
        !name.contains('/'),
        name != seq!['.'],
        name != seq!['.', '.'],
        name != path::comps(root).last(),
        answers_for(path::under(root, "../"@ + name), target),
        answers_for(root, source),
        target.last() is None,
        ({
            let n = path::comps(root).len() as int;
            let above = path::joined(path::comps(root).drop_last());
            ||| {
                &&& forall|i: int| 0 <= i < target.len() ==> #[trigger] target[i] is None
                &&& forall|i: int| 0 <= i < source.len() ==> #[trigger] source[i] is None
            }
            ||| {
                &&& target[n] matches Some(b)
                &&& os_path::path_text(b) == above
                &&& source[n - 1] matches Some(b)
                &&& os_path::path_text(b) == root
            }
        }),
    ensures
        self_sync_outcome(
            root,
            RemoteView::Local { path: "../"@ + name },
            target,
            source,
        ) is None,
{
    let cs = path::comps(root);
    let n = cs.len();
    let dots = seq!['.', '.'];
    let rel = "../"@ + name;
    let full = path::under(root, rel);
    reveal_strlit("../");
    path::lemma_comps_proper(root);
    assert(root.last() != '/') by {
        assert(!cs.last().contains('/')) by {
            assert(cs[n - 1] == cs.last());
        }
        let h = path::joined(cs.drop_last());
        assert(root == path::under(h, cs.last()));
        assert(root.last() == cs.last().last());
        assert(cs.last().contains(cs.last().last()));
    }
    assert(!dots.contains('/'));
    path::lemma_comps_under(root, dots);
    let up = path::under(root, dots);
    assert(up =~= root + seq!['/', '.', '.']);
    assert(up.last() == '.');
    path::lemma_comps_under(up, name);
    assert(full =~= path::under(up, name)) by {
        assert(rel[0] == '.');
    }
    let all = cs.push(dots).push(name);
    assert(path::comps(full) == all);
    let above = cs.drop_last();
    let there = above.push(name);
    assert(target.drop_last().len() == n + 1);
    if forall|i: int| 0 <= i < target.len() ==> #[trigger] target[i] is None {
        lemma_nothing_known(target);
    } else {
        assert(target.drop_last().last() == target[n as int]);
        assert(known_part(target) == known_part(target.drop_last()));
        assert(known_part(target.drop_last()) == Some((n + 1, target[n as int]->0)));
    }
    if forall|i: int| 0 <= i < source.len() ==> #[trigger] source[i] is None {
        lemma_nothing_known(source);
    } else {
        assert(source.last() == source[n - 1]);
        assert(known_part(source) == Some((n, source[n - 1]->0)));
    }
    // going by the names alone
    lemma_settled_plain(Seq::empty(), cs);
    assert(Seq::<Seq<char>>::empty() + cs =~= cs);
    assert(all.drop_last() =~= cs.push(dots));
    assert(cs.push(dots).drop_last() =~= cs);
    assert(cs[n - 1] == cs.last());
    assert(cs.last() != dots);
    assert(cs.last() != seq!['/']) by {
        assert(!cs[n - 1].contains('/'));
        if cs.last() == seq!['/'] {
            assert(cs.last()[0] == '/');
        }
    }
    assert(cs.last() != seq!['.']);
    assert(path::settled(Seq::empty(), cs.push(dots)) =~= above);
    assert(path::settled(Seq::empty(), all) =~= there);
    // with the directory above looked up
    path::lemma_proper_take(cs, n - 1);
    assert(cs.take(n - 1) =~= above);
    path::lemma_comps_joined(above);
    assert(all.skip((n + 1) as int) =~= seq![name]);
    assert(seq![name].drop_last().len() == 0);
    assert(path::settled(above, seq![name].drop_last()) == above);
    assert(path::settled(above, seq![name]) =~= there);
    assert(cs.skip(n as int).len() == 0);
    assert(path::settled(cs, cs.skip(n as int)) == cs);
    // the two places
    assert(path::proper(there)) by {
        assert forall|i: int| 0 <= i < there.len() implies {
            &&& (#[trigger] there[i]).len() > 0
            &&& i > 0 ==> there[i] != seq!['.']
            &&& (i > 0 || there[i] != seq!['/']) ==> !there[i].contains('/')
        } by {
            if i < n - 1 {
                assert(there[i] == cs[i]);
            }
        }
    }
    path::lemma_comps_joined(there);
    path::lemma_comps_joined(cs);
    assert(there[n - 1] != cs[n - 1]);
    assert(!there.is_prefix_of(cs)) by {
        if there.is_prefix_of(cs) {
            assert(cs.take(there.len() as int)[n - 1] == there[n - 1]);
        }
    }
    assert(!cs.is_prefix_of(there)) by {
        if cs.is_prefix_of(there) {
            assert(there.take(n as int)[n - 1] == cs[n - 1]);
        }
    }
}

/// Without an answer nothing is known.
proof fn lemma_nothing_known(answers: Seq<Option<Seq<u8>>>)
    requires
        forall|i: int| 0 <= i < answers.len() ==> #[trigger] answers[i] is None,
    ensures
        known_part(answers) is None,
    decreases answers.len(),
{
    if answers.len() > 0 {
        assert(answers[answers.len() - 1] is None);
        assert forall|i: int| 0 <= i < answers.len() - 1 implies #[trigger] answers.drop_last()[i] is None by {
            assert(answers[i] is None);
        }
        lemma_nothing_known(answers.drop_last());
    }
}

/// Names without dots lead straight on.
proof fn lemma_settled_plain(base: Seq<Seq<char>>, rest: Seq<Seq<char>>)
    requires
        forall|i: int| 0 <= i < rest.len() ==> #[trigger] rest[i] != seq!['.', '.'],
        forall|i: int| 0 <= i < rest.len() && (i > 0 || base.len() > 0) ==> rest[i] != seq!['.'],
    ensures
        path::settled(base, rest) == base + rest,
    decreases rest.len(),
{
    if rest.len() == 0 {
        assert(base + rest =~= base);
    } else {
        let head = rest.drop_last();
        assert forall|i: int| 0 <= i < head.len() implies #[trigger] head[i] != seq!['.', '.'] by {
            assert(head[i] == rest[i]);
        }
        lemma_settled_plain(base, head);
        let n = rest.len() - 1;
        assert(rest[n] == rest.last());
        assert(base + rest =~= (base + head).push(rest.last()));
    }
}

/// The path of the remote that is meant by `name`, or what is wrong.
pub open spec fn selected(cfg: &Config, name: Option<Seq<char>>) -> Result<Seq<char>, ErrorView> {
    match name {
        Some(n) => if cfg.remote@.contains_key(n) {
            Ok(cfg.remote@[n])
        } else {
            Err(ErrorView::Config("no such remote: "@ + n))
        },
        None => if cfg.remote@.contains_key(DEFAULT_REMOTE@) {
            Ok(cfg.remote@[DEFAULT_REMOTE@])
        } else {
            Err(
                ErrorView::Config(
                    "no default remote; pass a name or run `dsync remote add <name> <path>`"@,
                ),
            )
        },
    }
}

impl Config {
    /// The configuration's remotes are in order.
    pub open spec fn wf(&self) -> bool {
        self.remote.wf()
    }

    /// A new configuration, with one remote.
    pub fn seeded(default_path: String) -> (r: Config)
        ensures
            r.wf(),
            r.remote@ == map![DEFAULT_REMOTE@ => default_path@],
            r.ignore@.len() == 0,
            r.compression,
            r.compression_level == 3,
            r.threads == 0,
            r.delta_size_cap == 512 * 1024 * 1024,
    {
        let mut remote = RemoteMap::new();
        let ghost p = default_path@;
        remote.insert(DEFAULT_REMOTE.to_owned(), default_path);
        assert(remote@ =~= map![DEFAULT_REMOTE@ => p]);
        Config {
            remote,
            ignore: String::new(),
            compression: default_true(),
            compression_level: default_level(),
            threads: 0,
            delta_size_cap: default_delta_cap(),
        }
    }

    /// Checks the compression level and that every remote has a path.
    pub fn validate(&self) -> (r: Result<(), DsyncError>)
        ensures
            error::failure(r) == fault(self),
    {
        if self.compression_level < 1 || self.compression_level > 19 {
            let level = text::show_i32(self.compression_level);
            return Err(
                DsyncError::Config(
                    glue("compression_level must be between 1 and 19, got ", level.as_str()),
                ),
            );
        }
        let ghost order = self.remote.order();
        let mut i: usize = 0;
        assert(order.take(0).len() == 0);
        while i < self.remote.len()
            invariant
                i <= order.len(),
                order == self.remote.order(),
                1 <= self.compression_level <= 19,
                first_blank(order.take(i as int)) is None,
            decreases order.len() - i,
        {
            let (name, raw) = self.remote.at(i);
            proof {
                assert(order.take(i + 1).drop_last() =~= order.take(i as int));
                assert(order.take(i + 1).last() == order[i as int]);
            }
            let bare = text::trim(raw.as_str());
            let chars = chars_of(bare.as_str());
            if chars.len() == 0 {
                proof {
                    assert(first_blank(order.take(i + 1)) == Some(name@));
                    lemma_first_blank_stays(order, i + 1);
                }
                return Err(
                    DsyncError::Config(glue3("remote `", name.as_str(), "` has an empty path")),
                );
            }
            i = i + 1;
        }
        assert(order.take(i as int) =~= order);
        Ok(())
    }

    /// The text of the remote `name`, or of the default one.
    pub fn remote_text(&self, name: Option<&str>) -> (r: Result<&String, DsyncError>)
        requires
            self.wf(),
        ensures
            match r {
                Ok(raw) => selected(self, text::opt_str(name)) == Ok::<Seq<char>, ErrorView>(raw@),
                Err(e) => selected(self, text::opt_str(name)) == Err::<Seq<char>, ErrorView>(e@),
            },
    {
        match name {
            Some(n) => match self.remote.get(n) {
                Some(raw) => Ok(raw),
                None => Err(DsyncError::Config(glue("no such remote: ", n))),
            },
            None => match self.remote.get(DEFAULT_REMOTE) {
                Some(raw) => Ok(raw),
                None => Err(
                    DsyncError::Config(
                        "no default remote; pass a name or run `dsync remote add <name> <path>`".to_owned(),
                    ),
                ),
            },
        }
    }

    /// The remote `name`, or the default one.
    pub fn select_remote(&self, name: Option<&str>) -> (r: Result<Remote, DsyncError>)
        requires
            self.wf(),
        ensures
            match selected(self, text::opt_str(name)) {
                Ok(raw) => {
                    &&& exists|is_path: bool| error::outcome(r) == #[trigger] parsed(raw, is_path)
                    &&& !asks_the_disk(raw) ==> error::outcome(r) == parsed(raw, false)
                },
                Err(e) => error::outcome(r) == Err::<RemoteView, ErrorView>(e),
            },
    {
        match self.remote_text(name) {
            Ok(raw) => {
                let r = Remote::parse(raw.as_str());
                let ghost is_path = choose|b: bool| error::outcome(r) == #[trigger] parsed(raw@, b);
                assert(error::outcome(r) == parsed(raw@, is_path));
                r
            },
            Err(e) => Err(e),
        }
    }
}

/// What keeps a directory from being set up, if anything does. `already` says whether it has a
/// configuration, `is_path` whether what stands before the first colon of `path` is a path that
/// exists here, and `target` and `source` where the remote and the directory really are.
pub open spec fn init_fault(
    already: bool,
    path: Seq<char>,
    is_path: bool,
    target: Seq<char>,
    source: Seq<char>,
) -> Option<ErrorView> {
    if already {
        Some(ErrorView::AlreadyInitialized)
    } else {
        match parsed(path, is_path) {
            Ok(remote) => self_sync_fault(remote, target, source),
            Err(e) => Some(e),
        }
    }
}

/// What keeps a directory `cwd` from being set up, given what the disk knows.
pub open spec fn init_outcome(
    already: bool,
    cwd: Seq<char>,
    path: Seq<char>,
    is_path: bool,
    target: Seq<Option<Seq<u8>>>,
    source: Seq<Option<Seq<u8>>>,
) -> Option<ErrorView> {
    init_fault(
        already,
        path,
        is_path,
        place_of(path::under(cwd, text::trimmed(path)), target),
        place_of(cwd, source),
    )
}

/// What the disk says that matters for the remote `path` of the source directory `root`: whether
/// what stands before the first colon exists here, and where the remote, if it is local, and the
/// source directory are.
fn look_up(root: &str, path: &str) -> (r: (bool, String, String))
    ensures
        exists|target: Seq<Option<Seq<u8>>>|
            answers_for(path::under(root@, text::trimmed(path@)), target) && r.1@
                == #[trigger] place_of(path::under(root@, text::trimmed(path@)), target),
        exists|source: Seq<Option<Seq<u8>>>|
            answers_for(root@, source) && r.2@ == #[trigger] place_of(root@, source),
{
    let t = text::trim(path);
    let is_path = match host_part(t.as_str()) {
        Some(h) => path_exists(h.as_str()),
        None => false,
    };
    let abs = path::join(root, t.as_str());
    let local = match Remote::parse_given(path, is_path) {
        Ok(remote) => remote.is_local(),
        Err(_) => false,
    };
    if local {
        (is_path, locate(abs.as_str()), locate(root))
    } else {
        let none = no_answers(abs.as_str());
        let target = place_given(abs.as_str(), &none);
        assert(target@ == place_of(abs@, replies(none@)));
        let none = no_answers(root);
        let source = place_given(root, &none);
        assert(source@ == place_of(root@, replies(none@)));
        (is_path, target, source)
    }
}

/// The configuration to set a directory up with, for the default remote `path`, given what the
/// disk says: whether there is a configuration already, whether what stands before the first colon
/// of `path` exists here, and where the remote and the directory really are. A directory is set up
/// once, and not with itself as the remote.
pub fn init_given(already: bool, path: &str, is_path: bool, target: &str, source: &str) -> (r: Result<
    Config,
    DsyncError,
>)
    ensures
        error::failure(r) == init_fault(already, path@, is_path, target@, source@),
        r matches Ok(cfg) ==> {
            &&& cfg.wf()
            &&& cfg.remote@ == map![DEFAULT_REMOTE@ => text::trimmed(path@)]
            &&& cfg.ignore@.len() == 0
            &&& cfg.compression
            &&& cfg.compression_level == 3
            &&& cfg.threads == 0
            &&& cfg.delta_size_cap == 512 * 1024 * 1024
        },
{
    if already {
        return Err(DsyncError::AlreadyInitialized);
    }
    match Remote::parse_given(path, is_path) {
        Ok(remote) => match validate_locations(&remote, target, source) {
            Ok(_) => Ok(Config::seeded(text::trim(path))),
            Err(e) => Err(e),
        },
        Err(e) => Err(e),
    }
}

/// The configuration to set `cwd` up with, for the default remote `path`, wherever the disk says
/// the two are.
pub fn init(cwd: &str, already: bool, path: &str) -> (r: Result<Config, DsyncError>)
    ensures
        already ==> (r matches Err(e) && e@ is AlreadyInitialized),
        exists|
            is_path: bool,
            target: Seq<Option<Seq<u8>>>,
            source: Seq<Option<Seq<u8>>>,
        |
            {
                &&& answers_for(path::under(cwd@, text::trimmed(path@)), target)
                &&& answers_for(cwd@, source)
                &&& error::failure(r) == #[trigger] init_outcome(
                    already,
                    cwd@,
                    path@,
                    is_path,
                    target,
                    source,
                )
            },
        r matches Ok(cfg) ==> {
            &&& cfg.wf()
            &&& cfg.remote@ == map![DEFAULT_REMOTE@ => text::trimmed(path@)]
            &&& cfg.ignore@.len() == 0
            &&& cfg.compression
            &&& cfg.compression_level == 3
            &&& cfg.threads == 0
            &&& cfg.delta_size_cap == 512 * 1024 * 1024
        },
{
    let (is_path, target, source) = look_up(cwd, path);
    let r = init_given(already, path, is_path, target.as_str(), source.as_str());
    proof {
        let abs = path::under(cwd@, text::trimmed(path@));
        let t = choose|t: Seq<Option<Seq<u8>>>|
            answers_for(abs, t) && target@ == #[trigger] place_of(abs, t);
        let s = choose|s: Seq<Option<Seq<u8>>>|
            answers_for(cwd@, s) && source@ == #[trigger] place_of(cwd@, s);
        assert(error::failure(r) == init_outcome(already, cwd@, path@, is_path, t, s));
    }
    r
}

/// What is said when a directory has been set up.
pub fn init_lines(cwd: &str, path: &str) -> (r: Vec<String>)
    ensures
        text::views(r@) == seq![
            "Initialized dsync in "@ + config_file(cwd@),
            "  default -> "@ + text::trimmed(path@),
        ],
{
    let mut out: Vec<String> = Vec::new();
    out.push(glue("Initialized dsync in ", config_path(cwd).as_str()));
    out.push(glue("  default -> ", text::trim(path).as_str()));
    assert(text::views(out@) =~= seq![
        "Initialized dsync in "@ + config_file(cwd@),
        "  default -> "@ + text::trimmed(path@),
    ]);
    out
}

/// What keeps a remote from being added, if anything does.
pub open spec fn add_fault(
    cfg: &Config,
    name: Seq<char>,
    path: Seq<char>,
    is_path: bool,
    target: Seq<char>,
    source: Seq<char>,
) -> Option<ErrorView> {
    if cfg.remote@.contains_key(name) {
        Some(
            ErrorView::Config(
                "remote `"@ + name + "` already exists (remove it first to change its path)"@,
            ),
        )
    } else {
        init_fault(false, path, is_path, target, source)
    }
}

/// What keeps a remote from being added to the configuration of `root`, given what the disk knows.
pub open spec fn add_outcome(
    cfg: &Config,
    root: Seq<char>,
    name: Seq<char>,
    path: Seq<char>,
    is_path: bool,
    target: Seq<Option<Seq<u8>>>,
    source: Seq<Option<Seq<u8>>>,
) -> Option<ErrorView> {
    add_fault(
        cfg,
        name,
        path,
        is_path,
        place_of(path::under(root, text::trimmed(path)), target),
        place_of(root, source),
    )
}

/// Adds the remote `name`, and says so, given what the disk says: whether what stands before the
/// first colon of `path` exists here, and where the remote and the source directory really are. A
/// name that is taken, and a directory that lies in the source directory, are refused.
pub fn remote_add_given(
    cfg: &mut Config,
    name: &str,
    path: &str,
    is_path: bool,
    target: &str,
    source: &str,
) -> (r: Result<String, DsyncError>)
    requires
        old(cfg).wf(),
    ensures
        final(cfg).wf(),
        error::failure(r) == add_fault(old(cfg), name@, path@, is_path, target@, source@),
        match r {
            Ok(line) => {
                &&& final(cfg).remote@ == old(cfg).remote@.insert(name@, text::trimmed(path@))
                &&& *final(cfg) == (Config { remote: final(cfg).remote, ..*old(cfg) })
                &&& line@ == "Added remote `"@ + name@ + "` -> "@ + text::trimmed(path@)
            },
            Err(_) => *final(cfg) == *old(cfg),
        },
{
    if cfg.remote.contains_key(name) {
        return Err(
            DsyncError::Config(
                glue3("remote `", name, "` already exists (remove it first to change its path)"),
            ),
        );
    }
    match Remote::parse_given(path, is_path) {
        Ok(remote) => match validate_locations(&remote, target, source) {
            Ok(_) => {
                let bare = text::trim(path);
                let mut line = glue3("Added remote `", name, "` -> ");
                line.append(bare.as_str());
                cfg.remote.insert(name.to_owned(), bare);
                Ok(line)
            },
            Err(e) => Err(e),
        },
        Err(e) => Err(e),
    }
}

/// Adds the remote `name` to the configuration of `root`, and says so, wherever the disk says the
/// remote and `root` are.
pub fn remote_add(cfg: &mut Config, root: &str, name: &str, path: &str) -> (r: Result<
    String,
    DsyncError,
>)
    requires
        old(cfg).wf(),
    ensures
        final(cfg).wf(),
        old(cfg).remote@.contains_key(name@) ==> r is Err,
        exists|
            is_path: bool,
            target: Seq<Option<Seq<u8>>>,
            source: Seq<Option<Seq<u8>>>,
        |
            {
                &&& answers_for(path::under(root@, text::trimmed(path@)), target)
                &&& answers_for(root@, source)
                &&& error::failure(r) == #[trigger] add_outcome(
                    old(cfg),
                    root@,
                    name@,
                    path@,
                    is_path,
                    target,
                    source,
                )
            },
        match r {
            Ok(line) => {
                &&& final(cfg).remote@ == old(cfg).remote@.insert(name@, text::trimmed(path@))
                &&& *final(cfg) == (Config { remote: final(cfg).remote, ..*old(cfg) })
                &&& line@ == "Added remote `"@ + name@ + "` -> "@ + text::trimmed(path@)
            },
            Err(_) => *final(cfg) == *old(cfg),
        },
{
    let (is_path, target, source) = look_up(root, path);
    let r = remote_add_given(cfg, name, path, is_path, target.as_str(), source.as_str());
    proof {
        let abs = path::under(root@, text::trimmed(path@));
        let t = choose|t: Seq<Option<Seq<u8>>>|
            answers_for(abs, t) && target@ == #[trigger] place_of(abs, t);
        let s = choose|s: Seq<Option<Seq<u8>>>|
            answers_for(root@, s) && source@ == #[trigger] place_of(root@, s);
        assert(error::failure(r) == add_outcome(old(cfg), root@, name@, path@, is_path, t, s));
    }
    r
}

/// Removes the remote `name`, and says so.
pub fn remote_remove(cfg: &mut Config, name: &str) -> (r: Result<String, DsyncError>)
    requires
        old(cfg).wf(),
    ensures
        final(cfg).wf(),
        final(cfg).remote@ == old(cfg).remote@.remove(name@),
        *final(cfg) == (Config { remote: final(cfg).remote, ..*old(cfg) }),
        match r {
            Ok(line) => {
                &&& old(cfg).remote@.contains_key(name@)
                &&& line@ == "Removed remote `"@ + name@ + "`"@
            },
            Err(e) => {
                &&& !old(cfg).remote@.contains_key(name@)
                &&& e@ == ErrorView::Config("no such remote: "@ + name@)
            },
        },
{
    match cfg.remote.remove(name) {
        Some(_) => Ok(glue3("Removed remote `", name, "`")),
        None => Err(DsyncError::Config(glue("no such remote: ", name))),
    }
}

/// The line for a remote. The default one is marked.
pub open spec fn remote_line(pair: (Seq<char>, Seq<char>)) -> Seq<char> {
    pair.0 + (if pair.0 == DEFAULT_REMOTE@ {
        " (default)"@
    } else {
        ""@
    }) + " -> "@ + pair.1
}

/// The list of remotes, a line for each, in the order of their names.
pub open spec fn remote_report(cfg: &Config) -> Seq<Seq<char>> {
    let order = cfg.remote.order();
    if order.len() == 0 {
        seq!["(no remotes configured)"@]
    } else {
        Seq::new(order.len(), |i: int| remote_line(order[i]))
    }
}

/// The list of remotes, line by line.
pub fn remote_list(cfg: &Config) -> (r: Vec<String>)
    ensures
        text::views(r@) == remote_report(cfg),
{
    let mut out: Vec<String> = Vec::new();
    let ghost order = cfg.remote.order();
    let ghost report = remote_report(cfg);
    if cfg.remote.is_empty() {
        out.push("(no remotes configured)".to_owned());
        assert(text::views(out@) =~= report);
        return out;
    }
    let mut i: usize = 0;
    assert(text::views(out@) =~= report.take(0));
    while i < cfg.remote.len()
        invariant
            i <= order.len(),
            order.len() > 0,
            order == cfg.remote.order(),
            report == remote_report(cfg),
            text::views(out@) == report.take(i as int),
        decreases order.len() - i,
    {
        let ghost before = text::views(out@);
        let (name, path) = cfg.remote.at(i);
        let mark = if text::same(name.as_str(), DEFAULT_REMOTE) {
            " (default)"
        } else {
            ""
        };
        let mut line = glue3(name.as_str(), mark, " -> ");
        line.append(path.as_str());
        assert(line@ == remote_line(order[i as int]));
        out.push(line);
        assert(text::views(out@) =~= before.push(report[i as int]));
        assert(report.take(i + 1) =~= report.take(i as int).push(report[i as int]));
        i = i + 1;
    }
    assert(report.take(i as int) =~= report);
    out
}

/// A remote that was just added is the one selected under its name, and the others stay.
pub proof fn law_added_remote_is_selected(
    before: &Config,
    after: &Config,
    name: Seq<char>,
    path: Seq<char>,
    other: Seq<char>,
)
    requires
        after.remote@ == before.remote@.insert(name, text::trimmed(path)),
        other != name,
    ensures
        selected(after, Some(name)) == Ok::<Seq<char>, ErrorView>(text::trimmed(path)),
        selected(after, Some(other)) == selected(before, Some(other)),
{
}

/// A remote that was removed is not found any more; adding and removing one leaves the others as
/// they were.
pub proof fn law_removed_remote_is_gone(
    before: &Config,
    after: &Config,
    name: Seq<char>,
    path: Seq<char>,
)
    requires
        !before.remote@.contains_key(name),
        after.remote@ == before.remote@.insert(name, path).remove(name),
    ensures
        selected(after, Some(name)) is Err,
        name == DEFAULT_REMOTE@ ==> selected(after, None) is Err,
        after.remote@ == before.remote@,
{
    assert(after.remote@ =~= before.remote@);
}

/// A new configuration is acceptable if its remote is not blank, and selects that remote when none
/// is named.
pub proof fn law_seeded_config_is_sound(cfg: &Config, path: Seq<char>)
    requires
        cfg.wf(),
        cfg.remote@ == map![DEFAULT_REMOTE@ => text::trimmed(path)],
        cfg.compression_level == 3,
        text::trimmed(path).len() > 0,
    ensures
        fault(cfg) is None,
        selected(cfg, None) == Ok::<Seq<char>, ErrorView>(text::trimmed(path)),
{
    let order = cfg.remote.order();
    cfg.remote.lemma_in_order();
    text::lemma_trim_idempotent(path);
    assert forall|i: int| 0 <= i < order.len() implies text::trimmed((#[trigger] order[i]).1).len()
        > 0 by {
        lemma_path_for(order, i);
        assert(cfg.remote@.contains_key(order[i].0));
        assert(cfg.remote@[order[i].0] == order[i].1);
    }
    lemma_none_blank(order);
}

proof fn lemma_none_blank(pairs: Seq<(Seq<char>, Seq<char>)>)
    requires
        forall|i: int|
            0 <= i < pairs.len() ==> text::trimmed((#[trigger] pairs[i]).1).len() > 0,
    ensures
        first_blank(pairs) is None,
    decreases pairs.len(),
{
    if pairs.len() > 0 {
        let head = pairs.drop_last();
        assert forall|i: int| 0 <= i < head.len() implies text::trimmed((#[trigger] head[i]).1).len()
            > 0 by {
            assert(head[i] == pairs[i]);
        }
        lemma_none_blank(head);
        assert(pairs[pairs.len() - 1] == pairs.last());
    }
}

/// A configuration is found from every directory below its source directory: the directory is
/// among those that are looked at.
pub proof fn law_root_is_found_from_below(root: Seq<char>, start: Seq<char>)
    requires
        path::within(start, root),
        path::rooted(start) ==> path::rooted(root),
        path::normal(root) == root,
        path::comps(root).len() < path::comps(start).len(),
    ensures
        upward(start).contains(root),
{
    let cs = path::comps(start);
    let n = path::comps(root).len() as int;
    let top = if path::rooted(start) {
        1int
    } else {
        0int
    };
    assert(cs.take(n) =~= path::comps(root));
    assert(n >= top);
    let i = cs.len() - 1 - n;
    assert(upward(start)[1 + i] == path::joined(cs.take(cs.len() - 1 - i)));
}

proof fn lemma_first_blank_stays(pairs: Seq<(Seq<char>, Seq<char>)>, i: int)
    requires
        0 <= i <= pairs.len(),
        first_blank(pairs.take(i)) is Some,
    ensures
        first_blank(pairs) == first_blank(pairs.take(i)),
    decreases pairs.len(),
{
    if i == pairs.len() {
        assert(pairs.take(i) =~= pairs);
    } else {
        assert(pairs.drop_last().take(i) =~= pairs.take(i));
        lemma_first_blank_stays(pairs.drop_last(), i);
    }
}


/// Whether the first `@` of a text, if it has one, has a bracket behind it.
pub open spec fn has_bracket_after_at(s: Seq<char>) -> bool {
    exists|k: int|
        0 <= k < s.len() - 1 && s[k] == '@' && !(#[trigger] s.take(k)).contains('@') && s[k + 1]
            == '['
}

proof fn lemma_no_brackets(s: Seq<char>)
    requires
        s.len() > 0,
        s[0] != '[',
        !has_bracket_after_at(s),
    ensures
        bracketed(s) is None,
{
    let n = text::find(s, '@');
    text::lemma_find(s, '@');
    if n < s.len() - 1 && s[n + 1] == '[' {
        assert(s[n] == '@');
        assert(!s.take(n).contains('@')) by {
            if s.take(n).contains('@') {
                let k = choose|k: int| 0 <= k < n && s.take(n)[k] == '@';
                assert(s[k] == '@');
            }
        }
    }
    if n < s.len() && s.skip(n + 1).len() > 0 {
        assert(s.skip(n + 1)[0] == s[n + 1]);
    }
}

proof fn lemma_trim_plain(s: Seq<char>)
    requires
        s.len() > 0 ==> !text::is_space(s[0]) && !text::is_space(s[s.len() - 1]),
    ensures
        text::trimmed(s) == s,
{
    let e = Seq::<char>::empty();
    text::law_trimming_takes_white_space_only(e, s, e);
    assert(e + s + e =~= s);
}

/// White space around a remote's text makes no difference, and a blank text is refused.
pub proof fn law_white_space_around_a_remote_is_nothing(
    a: Seq<char>,
    s: Seq<char>,
    b: Seq<char>,
    is_path: bool,
)
    requires
        forall|k: int| 0 <= k < a.len() ==> text::is_space(#[trigger] a[k]),
        forall|k: int| 0 <= k < b.len() ==> text::is_space(#[trigger] b[k]),
        s.len() > 0 ==> !text::is_space(s[0]) && !text::is_space(s[s.len() - 1]),
    ensures
        parsed(a + s + b, is_path) == parsed(s, is_path),
        s.len() == 0 ==> parsed(a + s + b, is_path) == Err::<RemoteView, ErrorView>(
            ErrorView::Config("empty remote path"@),
        ),
{
    text::law_trimming_takes_white_space_only(a, s, b);
    lemma_trim_plain(s);
}

proof fn lemma_url_start(t: Seq<char>)
    requires
        "ssh://"@.is_prefix_of(t),
    ensures
        t.len() >= 6,
        t[0] == 's' && t[1] == 's' && t[2] == 'h' && t[3] == ':' && t[4] == '/' && t[5] == '/',
{
    reveal_strlit("ssh://");
    let u = "ssh://"@;
    assert(u[0] == 's' && u[1] == 's' && u[2] == 'h' && u[3] == ':' && u[4] == '/' && u[5] == '/');
    assert forall|i: int| 0 <= i < 6 implies #[trigger] t[i] == u[i] by {
        assert(t.subrange(0, 6)[i] == u[i]);
    }
}

/// A host, a colon and a path stand for the path on the host, at port 22 and without a user,
/// whatever characters the host is made of but a few, and whatever the path is: unless it starts as
/// a URL would or has a bracket behind its first `@`.
#[verifier::spinoff_prover]
#[verifier::rlimit(40)]
pub proof fn law_host_and_path(host: Seq<char>, p: Seq<char>)
    requires
        host.len() > 0,
        !(host.len() == 1 && ('a' <= host[0] <= 'z' || 'A' <= host[0] <= 'Z')),
        forall|k: int|
            0 <= k < host.len() ==> (#[trigger] host[k]) != '/' && host[k] != ':' && host[k] != '@'
                && host[k] != '[' && !text::is_space(host[k]),
        p.len() > 0 ==> !text::is_space(p[p.len() - 1]),
        !(host == "ssh"@ && p.len() >= 2 && p[0] == '/' && p[1] == '/'),
        !has_bracket_after_at(p),
    ensures
        parsed(host + seq![':'] + p, false) == Ok::<RemoteView, ErrorView>(
            RemoteView::Ssh { user: None, host, port: 22, path: p },
        ),
        parsed(host + seq![':'] + p, true) == Ok::<RemoteView, ErrorView>(
            RemoteView::Local { path: host + seq![':'] + p },
        ),
{
    let t = host + seq![':'] + p;
    let n = host.len() as int;
    assert(t[0] == host[0]);
    assert(t[t.len() - 1] == if p.len() > 0 {
        p[p.len() - 1]
    } else {
        ':'
    });
    lemma_trim_plain(t);
    assert forall|c: char| (c == '/' || c == ':' || c == '@') implies !#[trigger] host.contains(
        c,
    ) by {
        if host.contains(c) {
            let k = choose|k: int| 0 <= k < host.len() && host[k] == c;
            assert(host[k] == c);
        }
    }
    assert(!host.contains(':'));
    assert(!host.contains('@'));
    assert(!host.contains('/'));
    text::law_first_occurrence_has_none_before_it(host, ':', p);
    text::law_first_occurrence_has_none_before_it(host, '@', p);
    reveal_strlit("ssh://");
    reveal_strlit("ssh");
    if "ssh://"@.is_prefix_of(t) {
        lemma_url_start(t);
        if n < 3 {
            assert(t[n] == ':');
        } else if n > 3 {
            assert(host[3] == ':');
        } else {
            assert(host =~= "ssh"@);
            assert(p[0] == t[4] && p[1] == t[5]);
        }
    }
    assert(!has_bracket_after_at(t)) by {
        if has_bracket_after_at(t) {
            let k = choose|k: int|
                0 <= k < t.len() - 1 && t[k] == '@' && !(#[trigger] t.take(k)).contains('@') && t[k
                    + 1] == '[';
            if k < n {
                assert(host[k] == '@');
            } else {
                let j = k - n - 1;
                assert(p[j] == '@');
                assert(!p.take(j).contains('@')) by {
                    if p.take(j).contains('@') {
                        let i = choose|i: int| 0 <= i < j && p.take(j)[i] == '@';
                        assert(t.take(k)[i + n + 1] == '@');
                    }
                }
                assert(p[j + 1] == t[k + 1]);
            }
        }
    }
    lemma_no_brackets(t);
    assert(t.take(n) =~= host);
    assert(t.skip(n + 1) =~= p);
}

/// A user, an `@`, a host, a colon and a path stand for the path on the host as that user.
#[verifier::spinoff_prover]
#[verifier::rlimit(40)]
pub proof fn law_user_host_and_path(user: Seq<char>, host: Seq<char>, p: Seq<char>)
    requires
        user.len() > 0 ==> user[0] != '[' && !text::is_space(user[0]),
        forall|k: int|
            0 <= k < user.len() ==> (#[trigger] user[k]) != '/' && user[k] != ':' && user[k] != '@',
        host.len() > 0 ==> host[0] != '[',
        forall|k: int| 0 <= k < host.len() ==> (#[trigger] host[k]) != '/' && host[k] != ':',
        p.len() > 0 ==> !text::is_space(p[p.len() - 1]),
    ensures
        parsed(user + seq!['@'] + host + seq![':'] + p, false) == Ok::<RemoteView, ErrorView>(
            RemoteView::Ssh { user: Some(user), host, port: 22, path: p },
        ),
{
    let b = user + seq!['@'] + host;
    let t = b + seq![':'] + p;
    let u = user.len() as int;
    let n = b.len() as int;
    assert(t[0] == if user.len() > 0 {
        user[0]
    } else {
        '@'
    });
    assert(t[t.len() - 1] == if p.len() > 0 {
        p[p.len() - 1]
    } else {
        ':'
    });
    lemma_trim_plain(t);
    assert forall|k: int| 0 <= k < n implies #[trigger] b[k] != ':' && b[k] != '/' by {
        if k < u {
            assert(b[k] == user[k]);
        } else if k > u {
            assert(b[k] == host[k - u - 1]);
        }
    }
    assert(!b.contains(':') && !b.contains('/'));
    assert(!user.contains('@'));
    text::law_first_occurrence_has_none_before_it(b, ':', p);
    text::law_first_occurrence_has_none_before_it(user, '@', host);
    let rest = host + seq![':'] + p;
    text::law_first_occurrence_has_none_before_it(user, '@', rest);
    assert(t =~= user + seq!['@'] + rest);
    reveal_strlit("ssh://");
    if "ssh://"@.is_prefix_of(t) {
        lemma_url_start(t);
        assert(t[u] == '@');
        if n > 3 {
            assert(b[3] == ':');
        }
    }
    assert(t.skip(u + 1) =~= rest);
    assert(rest[0] != '[');
    assert(bracketed(t) is None);
    assert(t.take(n) =~= b);
    assert(t.skip(n + 1) =~= p);
    assert(b.take(u) =~= user);
    assert(b.skip(u + 1) =~= host);
    assert(b.len() > 1 || b[0] == '@');
}

/// A text stands for the local path that it is where it has no colon, starts with one, has a slash
/// before the first one, a drive letter alone, or a path that exists.
#[verifier::spinoff_prover]
#[verifier::rlimit(40)]
pub proof fn law_local_paths(s: Seq<char>, k: int, is_path: bool)
    requires
        s.len() > 0,
        !text::is_space(s[0]) && !text::is_space(s[s.len() - 1]),
        s[0] != '[',
        !has_bracket_after_at(s),
        !"ssh://"@.is_prefix_of(s),
        is_path || !s.contains(':') || s[0] == ':' || (0 <= k < s.len() && s[k] == '/' && !s.take(
            k,
        ).contains(':')) || (s.len() > 1 && s[1] == ':' && ('a' <= s[0] <= 'z' || 'A' <= s[0]
            <= 'Z')),
    ensures
        parsed(s, is_path) == Ok::<RemoteView, ErrorView>(RemoteView::Local { path: s }),
{
    lemma_trim_plain(s);
    lemma_no_brackets(s);
    let colon = text::find(s, ':');
    text::lemma_find(s, ':');
    if !is_path && colon < s.len() {
        assert(s.contains(s[colon]));
        let before = s.take(colon);
        if s[0] == ':' {
            assert(colon == 0);
        } else if 0 <= k < s.len() && s[k] == '/' && !s.take(k).contains(':') {
            if colon < k {
                assert(s.take(k)[colon] == ':');
            }
            assert(before[k] == '/');
            assert(before.contains('/'));
        } else {
            assert(colon == 1) by {
                if colon == 0 {
                    assert(s[0] == ':');
                }
                if colon > 1 {
                    assert(s[1] != ':');
                }
            }
            assert(before[0] == s[0]);
        }
    }
}

proof fn lemma_ssh_url(user: Option<Seq<char>>, hostport: Seq<char>, p: Seq<char>)
    requires
        user matches Some(u) ==> !u.contains('@') && !u.contains('/'),
        user is None ==> !hostport.contains('@'),
        !hostport.contains('/'),
        p.len() == 0 || p[0] == '/',
    ensures
        ({
            let front = match user {
                Some(u) => u + seq!['@'],
                None => Seq::empty(),
            };
            let rest = front + hostport + p;
            &&& text::find(rest, '/') == (front + hostport).len()
            &&& user_and_host(rest.take(text::find(rest, '/'))) == (user, hostport)
            &&& rest.skip(text::find(rest, '/')) == p
        }),
{
    let front = match user {
        Some(u) => u + seq!['@'],
        None => Seq::empty(),
    };
    let auth = front + hostport;
    let rest = auth + p;
    let n = auth.len() as int;
    assert forall|k: int| 0 <= k < n implies rest[k] != '/' by {
        if k >= front.len() {
            assert(rest[k] == hostport[k - front.len()]);
            assert(hostport.contains(hostport[k - front.len()]));
        } else {
            let u = user->0;
            if k < u.len() {
                assert(rest[k] == u[k]);
                assert(u.contains(u[k]));
            }
        }
    }
    if p.len() > 0 {
        assert(rest[n] == p[0]);
    }
    text::lemma_find_is(rest, '/', n);
    assert(rest.take(n) =~= auth);
    assert(rest.skip(n) =~= p);
    match user {
        Some(u) => {
            text::law_first_occurrence_has_none_before_it(u, '@', hostport);
            assert(auth =~= u + seq!['@'] + hostport);
            assert(auth.take(u.len() as int) =~= u);
            assert(auth.skip(u.len() as int + 1) =~= hostport);
        },
        None => {
            assert(auth =~= hostport);
            text::law_first_occurrence_has_none_before_it(hostport, '@', hostport);
        },
    }
}

/// A URL without a port gives user, host and path as they stand in it, and port 22: without a user
/// there is none, and without a path it is the root.
#[verifier::spinoff_prover]
#[verifier::rlimit(40)]
pub proof fn law_url_without_port(
    user: Option<Seq<char>>,
    front: Seq<char>,
    host: Seq<char>,
    p: Seq<char>,
    is_path: bool,
)
    requires
        user matches Some(u) ==> front == u + seq!['@'] && !u.contains('@') && !u.contains('/'),
        user is None ==> front == Seq::<char>::empty(),
        host.len() > 0,
        !text::is_space(host[host.len() - 1]),
        !host.contains('/') && !host.contains(':') && !host.contains('@'),
        p.len() > 0 ==> p[0] == '/' && !text::is_space(p[p.len() - 1]),
    ensures
        parsed("ssh://"@ + front + host + p, is_path) == Ok::<RemoteView, ErrorView>(
            RemoteView::Ssh {
                user,
                host,
                port: 22,
                path: if p.len() > 0 {
                    p
                } else {
                    seq!['/']
                },
            },
        ),
        !names_port("ssh://"@ + front + host + p),
{
    let rest = front + host + p;
    assert(rest.skip(front.len() as int) =~= host + p);
    lemma_url_text(rest, p, host);
    assert("ssh://"@ + front + host + p =~= "ssh://"@ + rest);
    lemma_ssh_url(user, host, p);
    text::law_last_occurrence_has_none_behind_it(host, ':', host);
    let slash = text::find(rest, '/');
    assert(slash < rest.len() <==> p.len() > 0);
}

/// A URL with a port gives it too. A port that is no number is refused.
#[verifier::spinoff_prover]
#[verifier::rlimit(40)]
pub proof fn law_url_with_port(
    user: Option<Seq<char>>,
    front: Seq<char>,
    host: Seq<char>,
    port: Seq<char>,
    p: Seq<char>,
    is_path: bool,
)
    requires
        user matches Some(u) ==> front == u + seq!['@'] && !u.contains('@') && !u.contains('/'),
        user is None ==> front == Seq::<char>::empty(),
        !host.contains('/') && !host.contains('@'),
        !port.contains('/') && !port.contains(':') && !port.contains('@'),
        port.len() > 0,
        !text::is_space(port[port.len() - 1]),
        p.len() > 0 ==> p[0] == '/' && !text::is_space(p[p.len() - 1]),
    ensures
        names_port("ssh://"@ + front + host + seq![':'] + port + p),
        text::u16_of(port) matches Some(n) ==> parsed(
            "ssh://"@ + front + host + seq![':'] + port + p,
            is_path,
        ) == Ok::<RemoteView, ErrorView>(
            RemoteView::Ssh {
                user,
                host,
                port: n,
                path: if p.len() > 0 {
                    p
                } else {
                    seq!['/']
                },
            },
        ),
        text::u16_of(port) is None ==> parsed(
            "ssh://"@ + front + host + seq![':'] + port + p,
            is_path,
        ) == Err::<RemoteView, ErrorView>(
            ErrorView::Config(
                "invalid ssh port in `"@ + (front + host + seq![':'] + port + p) + "`"@,
            ),
        ),
{
    let hostport = host + seq![':'] + port;
    let rest = front + hostport + p;
    let t = "ssh://"@ + rest;
    assert(t.skip(6) == rest && text::trimmed(t) == t && "ssh://"@.is_prefix_of(t) && t.len() > 0) by {
        assert(rest.skip(front.len() as int) =~= hostport + p);
        assert(hostport[hostport.len() - 1] == port[port.len() - 1]);
        lemma_url_text(rest, p, hostport);
    }
    assert("ssh://"@ + front + host + seq![':'] + port + p =~= t);
    assert(front + host + seq![':'] + port + p =~= rest);
    lemma_url_port(user, front, host, port, p);
}

#[verifier::spinoff_prover]
#[verifier::rlimit(40)]
proof fn lemma_url_port(
    user: Option<Seq<char>>,
    front: Seq<char>,
    host: Seq<char>,
    port: Seq<char>,
    p: Seq<char>,
)
    requires
        user matches Some(u) ==> front == u + seq!['@'] && !u.contains('@') && !u.contains('/'),
        user is None ==> front == Seq::<char>::empty(),
        !host.contains('/') && !host.contains('@'),
        !port.contains('/') && !port.contains(':') && !port.contains('@'),
        p.len() > 0 ==> p[0] == '/',
    ensures
        ({
            let rest = front + (host + seq![':'] + port) + p;
            &&& text::find_last(user_and_host(rest.take(text::find(rest, '/'))).1, ':') is Some
            &&& text::u16_of(port) matches Some(n) ==> ssh_url(rest) == Ok::<RemoteView, ErrorView>(
                RemoteView::Ssh {
                    user,
                    host,
                    port: n,
                    path: if p.len() > 0 {
                        p
                    } else {
                        seq!['/']
                    },
                },
            )
            &&& text::u16_of(port) is None ==> ssh_url(rest) == Err::<RemoteView, ErrorView>(
                ErrorView::Config("invalid ssh port in `"@ + rest + "`"@),
            )
        }),
{
    let hostport = host + seq![':'] + port;
    let rest = front + hostport + p;
    lemma_in_none(host, port, '/');
    lemma_in_none(host, port, '@');
    lemma_ssh_url(user, hostport, p);
    let slash = text::find(rest, '/');
    assert(slash == (front + hostport).len());
    text::law_last_occurrence_has_none_behind_it(host, ':', port);
    assert(hostport.skip(host.len() as int + 1) =~= port);
    assert(hostport.take(host.len() as int) =~= host);
}

proof fn lemma_in_none(host: Seq<char>, port: Seq<char>, c: char)
    requires
        c != ':',
        !host.contains(c),
        !port.contains(c),
    ensures
        !(host + seq![':'] + port).contains(c),
{
    let both = host + seq![':'] + port;
    if both.contains(c) {
        let k = choose|k: int| 0 <= k < both.len() && both[k] == c;
        if k < host.len() {
            assert(host[k] == c);
        } else if k > host.len() {
            assert(port[k - host.len() - 1] == c);
        }
    }
}

/// A text that starts as a URL and has no white space at its end is read as one.
proof fn lemma_url_text(rest: Seq<char>, p: Seq<char>, h: Seq<char>)
    requires
        h.len() > 0,
        !text::is_space(h[h.len() - 1]),
        p.len() > 0 ==> !text::is_space(p[p.len() - 1]),
        rest.len() >= h.len() + p.len(),
        rest.skip(rest.len() - p.len() - h.len()) == h + p,
    ensures
        ({
            let t = "ssh://"@ + rest;
            &&& text::trimmed(t) == t
            &&& t.len() > 0
            &&& "ssh://"@.is_prefix_of(t)
            &&& t.skip(6) == rest
        }),
{
    reveal_strlit("ssh://");
    let t = "ssh://"@ + rest;
    let n = rest.len() - p.len() - h.len();
    let end = h + p;
    assert(t[0] == 's');
    assert(t[t.len() - 1] == rest[rest.len() - 1]);
    assert(rest[rest.len() - 1] == rest.skip(n)[end.len() - 1]);
    assert(end[end.len() - 1] == if p.len() > 0 {
        p[p.len() - 1]
    } else {
        h[h.len() - 1]
    });
    lemma_trim_plain(t);
    assert(t.subrange(0, 6) =~= "ssh://"@);
    assert(t.skip(6) =~= rest);
}

/// A host in brackets is what stands between them, colons and all; the user is what stands before
/// the `@` in front of them, and the path what follows, without a colon in front.
#[verifier::spinoff_prover]
#[verifier::rlimit(40)]
pub proof fn law_host_in_brackets(
    user: Option<Seq<char>>,
    host: Seq<char>,
    p: Seq<char>,
    is_path: bool,
)
    requires
        user matches Some(u) ==> u.len() > 0 && !text::is_space(u[0]) && !u.contains('@')
            && !"ssh://"@.is_prefix_of(u + seq!['@', '[']),
        !host.contains(']'),
        user is None ==> !has_bracket_after_at(seq!['['] + host + (seq![']', ':'] + p)),
        p.len() > 0 ==> !text::is_space(p[p.len() - 1]),
    ensures
        parsed(bracket_front(user) + host + (seq![']', ':'] + p), is_path) == Ok::<
            RemoteView,
            ErrorView,
        >(RemoteView::Ssh { user, host, port: 22, path: p }),
{
    let front = bracket_front(user);
    let n = front.len() as int;
    let tail = seq![']', ':'] + p;
    let one = front + host + tail;
    lemma_bracketed_text(user, host, tail);
    assert(one[one.len() - 1] == tail[tail.len() - 1]);
    assert(tail[tail.len() - 1] == if p.len() > 0 {
        p[p.len() - 1]
    } else {
        ':'
    });
    assert(one[0] == front[0]);
    lemma_trim_plain(one);
    let a = one.skip(n - 1);
    let inner = seq!['['] + host;
    assert(!inner.contains(']')) by {
        if inner.contains(']') {
            let k = choose|k: int| 0 <= k < inner.len() && inner[k] == ']';
            assert(host[k - 1] == ']');
        }
    }
    let more = seq![':'] + p;
    text::law_first_occurrence_has_none_before_it(inner, ']', more);
    assert(a =~= inner + seq![']'] + more);
    assert(a.subrange(1, inner.len() as int) =~= host);
    assert(a.skip(inner.len() as int + 1) =~= more);
    assert(more.skip(1) =~= p);
}

/// A bracket that is not closed is refused.
#[verifier::spinoff_prover]
#[verifier::rlimit(40)]
pub proof fn law_open_bracket_is_refused(user: Option<Seq<char>>, host: Seq<char>, is_path: bool)
    requires
        user matches Some(u) ==> u.len() > 0 && !text::is_space(u[0]) && !u.contains('@')
            && !"ssh://"@.is_prefix_of(u + seq!['@', '[']),
        !host.contains(']'),
        user is None ==> !has_bracket_after_at(seq!['['] + host),
        host.len() > 0 ==> !text::is_space(host[host.len() - 1]),
    ensures
        parsed(bracket_front(user) + host, is_path) == Err::<RemoteView, ErrorView>(
            ErrorView::Config("unterminated IPv6 host in `"@ + (bracket_front(user) + host) + "`"@),
        ),
{
    let front = bracket_front(user);
    let n = front.len() as int;
    let two = front + host;
    let none = Seq::<char>::empty();
    assert(seq!['['] + host + none =~= seq!['['] + host);
    lemma_bracketed_text(user, host, none);
    assert(front + host + none =~= two);
    assert(two[two.len() - 1] == if host.len() > 0 {
        host[host.len() - 1]
    } else {
        '['
    });
    assert(two[0] == front[0]);
    lemma_trim_plain(two);
    let b = two.skip(n - 1);
    let inner = seq!['['] + host;
    assert(!inner.contains(']')) by {
        if inner.contains(']') {
            let k = choose|k: int| 0 <= k < inner.len() && inner[k] == ']';
            assert(host[k - 1] == ']');
        }
    }
    text::law_first_occurrence_has_none_before_it(inner, ']', none);
    assert(b =~= inner);
}

/// What stands before a host in brackets, up to the bracket.
pub open spec fn bracket_front(user: Option<Seq<char>>) -> Seq<char> {
    match user {
        Some(u) => u + seq!['@', '['],
        None => seq!['['],
    }
}

#[verifier::spinoff_prover]
#[verifier::rlimit(40)]
proof fn lemma_bracketed_text(user: Option<Seq<char>>, host: Seq<char>, tail: Seq<char>)
    requires
        user matches Some(u) ==> u.len() > 0 && !u.contains('@') && !"ssh://"@.is_prefix_of(
            u + seq!['@', '['],
        ),
        user is None ==> !has_bracket_after_at(seq!['['] + host + tail),
    ensures
        ({
            let front = bracket_front(user);
            let t = front + host + tail;
            &&& bracketed_host(t) == Some((user, t.skip(front.len() - 1)))
            &&& !"ssh://"@.is_prefix_of(t)
        }),
{
    reveal_strlit("ssh://");
    let front = bracket_front(user);
    let t = front + host + tail;
    match user {
        Some(u) => {
            let more = seq!['['] + host + tail;
            text::law_first_occurrence_has_none_before_it(u, '@', more);
            assert(t =~= u + seq!['@'] + more);
            assert(t.take(u.len() as int) =~= u);
            assert(t.skip(u.len() as int + 1) =~= t.skip(front.len() - 1));
            assert(t.skip(u.len() as int + 1)[0] == '[');
            if "ssh://"@.is_prefix_of(t) {
                lemma_url_start(t);
                if front.len() >= 6 {
                    assert(front.subrange(0, 6) =~= t.subrange(0, 6));
                } else {
                    assert(t[u.len() as int] == '@');
                }
            }
        },
        None => {
            let n = text::find(t, '@');
            text::lemma_find(t, '@');
            if n < t.len() - 1 && t[n + 1] == '[' {
                assert(t[n] == '@');
                assert(!t.take(n).contains('@')) by {
                    if t.take(n).contains('@') {
                        let k = choose|k: int| 0 <= k < n && t.take(n)[k] == '@';
                        assert(t[k] == '@');
                    }
                }
                assert(has_bracket_after_at(t));
            }
            if n < t.len() && t.skip(n + 1).len() > 0 {
                assert(t.skip(n + 1)[0] == t[n + 1]);
            }
            assert(t.skip(0) =~= t);
            assert(t[0] == '[');
            if "ssh://"@.is_prefix_of(t) {
                lemma_url_start(t);
            }
        },
    }
}


/// A local remote is refused if it is the source directory, lies in it, or has it in it; a remote on
/// another host never is.
pub proof fn law_nested_directories_are_refused(
    path: Seq<char>,
    dir: Seq<char>,
    name: Seq<char>,
    user: Option<Seq<char>>,
    host: Seq<char>,
    port: u16,
    source: Seq<char>,
)
    requires
        dir.len() > 0,
        name.len() > 0,
        !name.contains('/'),
        name != seq!['.'],
    ensures
        self_sync_fault(RemoteView::Local { path }, dir, dir) is Some,
        self_sync_fault(RemoteView::Local { path }, dir + seq!['/'] + name, dir) is Some,
        self_sync_fault(RemoteView::Local { path }, dir, dir + seq!['/'] + name) is Some,
        self_sync_fault(RemoteView::Local { path }, dir, source) == self_sync_fault(
            RemoteView::Local { path },
            source,
            dir,
        ),
        self_sync_fault(RemoteView::Local { path }, dir, source) is None <==> !path::within(
            dir,
            source,
        ) && !path::within(source, dir),
        self_sync_fault(RemoteView::Ssh { user, host, port, path }, dir, source) is None,
        self_sync_fault(RemoteView::Local { path }, dir, dir) == Some(
            ErrorView::Config(
                "remote path `"@ + path
                    + "` is inside the source directory; a directory cannot sync into itself"@,
            ),
        ),
{
    path::law_path_lies_within_its_directories(dir, name, dir);
}

/// A path is where the disk says that it is; where the disk knows only a directory above it, it is
/// below that, name by name, and two dots lead back up.
pub proof fn law_place_goes_by_the_longest_known_part(
    p: Seq<char>,
    name: Seq<char>,
    answers: Seq<Option<Seq<u8>>>,
    base: Seq<u8>,
)
    requires
        p.len() > 0,
        answers.len() == path::comps(p).len(),
        name.len() > 0,
        !name.contains('/'),
        name != seq!['.'],
        name != seq!['.', '.'],
    ensures
        place_of(name, seq![None]) == name,
        place_of(seq!['/'], seq![None]) == seq!['/'],
        place_of(p + seq!['/'] + name, answers.push(Some(base))) == path::normal(
            os_path::path_text(base),
        ),
        place_of(p + seq!['/'] + name, answers.push(None)) == path::under(
            place_of(p, answers),
            name,
        ),
        place_of(p + seq!['/'] + name + seq!['/', '.', '.'], answers.push(None).push(None))
            == place_of(p, answers),
{
    path::law_name_is_one_component_more(p, name);
    let q = p + seq!['/'] + name;
    let up = seq!['.', '.'];
    assert(!up.contains('/'));
    assert(up != seq!['.']) by {
        assert(up.len() == 2);
    }
    path::law_name_is_one_component_more(q, up);
    assert(q + seq!['/'] + up =~= q + seq!['/', '.', '.']);
    let cs = path::comps(p);
    assert(path::comps(q) == cs.push(name));
    let yes = answers.push(Some(base));
    assert(cs.push(name).skip(yes.len() as int) =~= Seq::empty());
    let text = path::comps(os_path::path_text(base));
    assert(path::settled(text, Seq::empty()) == text);
    assert(name != seq!['/']) by {
        if name == seq!['/'] {
            assert(name[0] == '/');
            assert(name.contains(name[0]));
        }
    }
    assert(!path::rooted(name)) by {
        if path::rooted(name) {
            assert(name.contains(name[0]));
        }
    }
    let no = answers.push(None);
    assert(no.drop_last() =~= answers);
    assert(no.push(None).drop_last() =~= no);
    assert(known_part(no) == known_part(answers));
    assert(known_part(no.push(None)) == known_part(answers));
    let unknown: Seq<Option<Seq<u8>>> = seq![None];
    assert(unknown.drop_last().len() == 0);
    assert(known_part(unknown.drop_last()) is None);
    assert(known_part(unknown) is None);
    let empty = Seq::<Seq<char>>::empty();
    path::law_two_dots_lead_back_up(empty, empty, name);
    assert(empty.push(name) =~= seq![name]);
    let top = seq![seq!['/']];
    assert(top.drop_last() =~= empty);
    assert(path::settled(empty, top) =~= top);
    lemma_known_part(answers);
    match known_part(answers) {
        Some((k, b)) => {
            let from = path::comps(os_path::path_text(b));
            let rest = cs.skip(k as int);
            path::law_two_dots_lead_back_up(from, rest, name);
            assert(cs.push(name).skip(k as int) =~= rest.push(name));
            assert(cs.push(name).push(up).skip(k as int) =~= rest.push(name).push(up));
            lemma_joined_push(path::settled(from, rest), name);
        },
        None => {
            let from = Seq::<Seq<char>>::empty();
            path::law_two_dots_lead_back_up(from, cs, name);
            lemma_joined_push(path::settled(from, cs), name);
        },
    }
}

proof fn lemma_known_part(answers: Seq<Option<Seq<u8>>>)
    ensures
        known_part(answers) matches Some((k, b)) ==> k <= answers.len(),
    decreases answers.len(),
{
    if answers.len() > 0 {
        lemma_known_part(answers.drop_last());
    }
}

proof fn lemma_joined_push(cs: Seq<Seq<char>>, c: Seq<char>)
    requires
        !path::rooted(c),
    ensures
        path::joined(cs.push(c)) == path::under(path::joined(cs), c),
{
    assert(cs.push(c).drop_last() =~= cs);
    if cs.len() == 0 {
        assert(path::joined(cs) + c =~= c);
    }
}

/// The parts that the disk is asked about are the path's directories from its front on, and last the
/// path itself.
pub proof fn law_every_part_is_asked_about(p: Seq<char>, name: Seq<char>)
    requires
        p.len() > 0,
        name.len() > 0,
        !name.contains('/'),
        name != seq!['.'],
    ensures
        parts_of(name) == seq![name],
        parts_of(p + seq!['/'] + name) == parts_of(p).push(path::normal(p + seq!['/'] + name)),
{
    path::law_name_is_one_component_more(p, name);
    let cs = path::comps(p);
    let q = p + seq!['/'] + name;
    let all = cs.push(name);
    assert forall|i: int| 0 <= i < cs.len() implies #[trigger] parts_of(q)[i] == parts_of(p)[i] by {
        assert(all.take(i + 1) =~= cs.take(i + 1));
    }
    assert(all.take(all.len() as int) =~= all);
    assert(parts_of(q) =~= parts_of(p).push(path::normal(q)));
    let one = seq![name];
    assert(one.take(1) =~= one);
    assert(parts_of(name) =~= seq![name]);
}

/// A directory with a configuration is not set up again, whatever the remote; otherwise it is set up
/// exactly if the remote's text can be read and the remote is not in the way.
pub proof fn law_directory_is_set_up_once(
    path: Seq<char>,
    is_path: bool,
    target: Seq<char>,
    source: Seq<char>,
)
    ensures
        init_fault(true, path, is_path, target, source) == Some(ErrorView::AlreadyInitialized),
        parsed(path, is_path) matches Err(e) ==> init_fault(false, path, is_path, target, source)
            == Some(e),
        parsed(path, is_path) matches Ok(RemoteView::Ssh { .. }) ==> init_fault(
            false,
            path,
            is_path,
            target,
            source,
        ) is None,
        parsed(path, is_path) matches Ok(RemoteView::Local { .. }) ==> (init_fault(
            false,
            path,
            is_path,
            target,
            source,
        ) is None <==> !path::within(target, source) && !path::within(source, target)),
{
}

/// A name that is taken is refused, whatever the path; otherwise a remote is refused as it would be
/// for a new directory.
pub proof fn law_taken_name_is_refused(
    cfg: &Config,
    name: Seq<char>,
    path: Seq<char>,
    is_path: bool,
    target: Seq<char>,
    source: Seq<char>,
)
    ensures
        cfg.remote@.contains_key(name) ==> add_fault(cfg, name, path, is_path, target, source)
            == Some(
            ErrorView::Config(
                "remote `"@ + name + "` already exists (remove it first to change its path)"@,
            ),
        ),
        !cfg.remote@.contains_key(name) ==> add_fault(cfg, name, path, is_path, target, source)
            == init_fault(false, path, is_path, target, source),
{
}

/// A configuration is refused for a compression level outside of 1 to 19, or else for the first of
/// its remotes whose path is blank, and for nothing else.
pub proof fn law_faults_of_a_configuration(cfg: &Config, i: int)
    requires
        0 <= i <= cfg.remote.order().len(),
        forall|k: int|
            0 <= k < i ==> text::trimmed((#[trigger] cfg.remote.order()[k]).1).len() > 0,
        i < cfg.remote.order().len() ==> text::trimmed(cfg.remote.order()[i].1).len() == 0,
    ensures
        cfg.compression_level < 1 || cfg.compression_level > 19 ==> fault(cfg) == Some(
            ErrorView::Config(
                "compression_level must be between 1 and 19, got "@ + text::signed_decimal(
                    cfg.compression_level as int,
                ),
            ),
        ),
        1 <= cfg.compression_level <= 19 && i < cfg.remote.order().len() ==> fault(cfg) == Some(
            ErrorView::Config("remote `"@ + cfg.remote.order()[i].0 + "` has an empty path"@),
        ),
        1 <= cfg.compression_level <= 19 && i == cfg.remote.order().len() ==> fault(cfg) is None,
{
    let order = cfg.remote.order();
    if i < order.len() {
        let head = order.take(i);
        assert forall|k: int| 0 <= k < head.len() implies text::trimmed(
            (#[trigger] head[k]).1,
        ).len() > 0 by {
            assert(head[k] == order[k]);
        }
        lemma_none_blank(head);
        let more = order.take(i + 1);
        assert(more.drop_last() =~= head);
        assert(more.last() == order[i]);
        lemma_first_blank_stays(order, i + 1);
    } else {
        lemma_none_blank(order);
    }
}

/// The configuration of a directory is the file `.dsync/config.yaml` in it.
pub proof fn law_configuration_has_its_place(root: Seq<char>)
    requires
        root.len() > 0,
        root[root.len() - 1] != '/',
    ensures
        config_file(root) == root + seq!['/'] + ".dsync"@ + seq!['/'] + "config.yaml"@,
{
    reveal_strlit(".dsync");
    reveal_strlit("config.yaml");
    let d = ".dsync"@;
    let f = "config.yaml"@;
    assert(d[0] == '.' && f[0] == 'c' && d[5] == 'c');
    path::law_path_below_a_directory(root, d);
    let a = root + seq!['/'] + d;
    assert(a[a.len() - 1] == d[5]);
    path::law_path_below_a_directory(a, f);
}

/// A configuration is looked for in the directory itself, then in the one above it, and so on.
pub proof fn law_search_goes_up_step_by_step(p: Seq<char>, name: Seq<char>)
    requires
        p.len() > 0,
        name.len() > 0,
        !name.contains('/'),
        name != seq!['.'],
    ensures
        upward(p + seq!['/'] + name) == seq![p + seq!['/'] + name] + upward(path::normal(p)),
        upward(name) == seq![name, Seq::<char>::empty()],
        upward(seq!['/']) == seq![seq!['/']],
{
    path::law_name_is_one_component_more(p, name);
    path::lemma_normal(p);
    path::lemma_comps_proper(p);
    let q = p + seq!['/'] + name;
    let cs = path::comps(p);
    let all = cs.push(name);
    let n = path::normal(p);
    assert(path::rooted(n) == path::rooted(p)) by {
        if path::rooted(p) {
            assert(path::comps(n)[0] == seq!['/']);
            if !path::rooted(n) {
                path::lemma_relative_comps(n);
            }
        } else {
            path::lemma_relative_comps(p);
            path::lemma_joined_plain(cs);
        }
    }
    assert(path::rooted(q) == path::rooted(p)) by {
        assert(q[0] == p[0]);
    }
    let up = upward(q);
    let rest = upward(n);
    let top = if path::rooted(p) {
        1int
    } else {
        0int
    };
    assert(cs.len() >= top);
    assert(up.len() == 1 + rest.len());
    assert forall|i: int| 0 <= i < rest.len() implies up[1 + i] == #[trigger] rest[i] by {
        let k = all.len() - 1 - i;
        assert(all.take(k) =~= cs.take(k));
        assert(up[1 + i] == path::joined(all.take(k)));
        if i == 0 {
            assert(cs.take(k) =~= cs);
        } else {
            assert(rest[i] == path::joined(cs.take(cs.len() - 1 - (i - 1))));
        }
    }
    assert(up =~= seq![q] + rest);
    let one = seq![name];
    assert(!path::rooted(name)) by {
        if path::rooted(name) {
            assert(name.contains(name[0]));
        }
    }
    assert(one.take(0) =~= Seq::<Seq<char>>::empty());
    assert(upward(name) =~= seq![name, Seq::<char>::empty()]);
    assert(upward(seq!['/']) =~= seq![seq!['/']]);
}

/// Without a name the remote `default` is meant; a name without a remote is refused, and so is no
/// name without a default.
pub proof fn law_default_remote_is_meant(cfg: &Config, name: Seq<char>)
    ensures
        cfg.remote@.contains_key("default"@) ==> selected(cfg, None) == selected(
            cfg,
            Some("default"@),
        ),
        cfg.remote@.contains_key(name) ==> selected(cfg, Some(name)) == Ok::<Seq<char>, ErrorView>(
            cfg.remote@[name],
        ),
        !cfg.remote@.contains_key(name) ==> selected(cfg, Some(name)) == Err::<
            Seq<char>,
            ErrorView,
        >(ErrorView::Config("no such remote: "@ + name)),
        !cfg.remote@.contains_key("default"@) ==> selected(cfg, None) is Err,
{
}

/// Every remote has its line in the list, in order, with its name and path, and the default one is
/// marked.
pub proof fn law_every_remote_is_listed(cfg: &Config, i: int)
    requires
        0 <= i < cfg.remote.order().len(),
    ensures
        remote_report(cfg).len() == cfg.remote.order().len(),
        cfg.remote.order()[i].0 != "default"@ ==> remote_report(cfg)[i] == cfg.remote.order()[i].0
            + " -> "@ + cfg.remote.order()[i].1,
        cfg.remote.order()[i].0 == "default"@ ==> remote_report(cfg)[i] == "default"@
            + " (default)"@ + " -> "@ + cfg.remote.order()[i].1,
{
    reveal_strlit("");
    let pair = cfg.remote.order()[i];
    assert(pair.0 + ""@ =~= pair.0);
}

/// What follows a closed bracket without a colon is the path as it is.
#[verifier::spinoff_prover]
#[verifier::rlimit(40)]
pub proof fn law_path_may_follow_the_bracket(
    user: Option<Seq<char>>,
    host: Seq<char>,
    p: Seq<char>,
    is_path: bool,
)
    requires
        user matches Some(u) ==> u.len() > 0 && !text::is_space(u[0]) && !u.contains('@')
            && !"ssh://"@.is_prefix_of(u + seq!['@', '[']),
        !host.contains(']'),
        user is None ==> !has_bracket_after_at(seq!['['] + host + (seq![']'] + p)),
        p.len() > 0 ==> !text::is_space(p[p.len() - 1]) && p[0] != ':',
    ensures
        parsed(bracket_front(user) + host + (seq![']'] + p), is_path) == Ok::<RemoteView, ErrorView>(
            RemoteView::Ssh { user, host, port: 22, path: p },
        ),
{
    let front = bracket_front(user);
    let n = front.len() as int;
    let tail = seq![']'] + p;
    let one = front + host + tail;
    lemma_bracketed_text(user, host, tail);
    assert(one[one.len() - 1] == tail[tail.len() - 1]);
    assert(tail[tail.len() - 1] == if p.len() > 0 {
        p[p.len() - 1]
    } else {
        ']'
    });
    assert(one[0] == front[0]);
    lemma_trim_plain(one);
    let a = one.skip(n - 1);
    let inner = seq!['['] + host;
    assert(!inner.contains(']')) by {
        if inner.contains(']') {
            let k = choose|k: int| 0 <= k < inner.len() && inner[k] == ']';
            assert(host[k - 1] == ']');
        }
    }
    text::law_first_occurrence_has_none_before_it(inner, ']', p);
    assert(a =~= inner + seq![']'] + p);
    assert(a.subrange(1, inner.len() as int) =~= host);
    assert(a.skip(inner.len() as int + 1) =~= p);
}

/// The disk decides what a remote's text stands for exactly if the text stands for different things
/// with and without such a path.
pub proof fn law_disk_is_asked_where_it_matters(s: Seq<char>)
    ensures
        asks_the_disk(s) <==> parsed(s, true) != parsed(s, false),
{
}

/// A remote that is given by a mere name lies in the directory that it is for, wherever that is, and
/// so is refused: for a new directory, for one more remote, and when a sync starts.
pub proof fn law_relative_remote_lies_in_the_directory(
    cfg: &Config,
    root: Seq<char>,
    name: Seq<char>,
    title: Seq<char>,
    is_path: bool,
    source: Seq<Option<Seq<u8>>>,
)
    requires
        root.len() > 0,
        root[root.len() - 1] != '/',
        answers_for(root, source),
        name.len() > 0,
        !text::is_space(name[0]) && !text::is_space(name[name.len() - 1]),
        name[0] != '[',
        !name.contains('/') && !name.contains(':') && !name.contains('@'),
        name != seq!['.'] && name != seq!['.', '.'],
    ensures
        self_sync_outcome(root, RemoteView::Local { path: name }, source.push(None), source) is Some,
        init_outcome(false, root, name, is_path, source.push(None), source) is Some,
        !cfg.remote@.contains_key(title) ==> add_outcome(
            cfg,
            root,
            title,
            name,
            is_path,
            source.push(None),
            source,
        ) is Some,
{
    assert(name[0] != '/') by {
        assert(name.contains(name[0]));
    }
    if "ssh://"@.is_prefix_of(name) {
        lemma_url_start(name);
        assert(name.contains(name[4]));
    }
    assert(!has_bracket_after_at(name)) by {
        if has_bracket_after_at(name) {
            let k = choose|k: int|
                0 <= k < name.len() - 1 && name[k] == '@' && !(#[trigger] name.take(k)).contains(
                    '@',
                ) && name[k + 1] == '[';
            assert(name.contains(name[k]));
        }
    }
    law_local_paths(name, 0, is_path);
    lemma_trim_plain(name);
    path::law_path_below_a_directory(root, name);
    law_place_goes_by_the_longest_known_part(root, name, source, Seq::empty());
    let place = place_of(root, source);
    if place.len() > 0 {
        path::lemma_comps_under(place, name);
        let cs = path::comps(place);
        assert(cs.push(name).subrange(0, cs.len() as int) =~= cs);
    } else {
        path::law_name_is_one_component_more(root, name);
        assert(place =~= Seq::<char>::empty());
        path::law_path_below_a_directory(place, name);
    }
    assert(path::within(path::under(place, name), place));
}

} // verus!
