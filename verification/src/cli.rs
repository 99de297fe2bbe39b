//! The command line: what can be asked for, and what it means.
use vstd::prelude::*;

use crate::config::Config;
use crate::error::DsyncError;
use crate::error::ErrorView;
use crate::sync::SyncDirection;
use crate::sync::SyncOptions;
use crate::text;

verus! {

/// The exit code for a command line that makes no sense.
pub const USAGE_EXIT: i32 = 2;

/// A command line.
#[derive(Debug)]
pub struct Cli {
    /// Whether to serve a tree instead of doing anything else.
    pub server: bool,
    pub command: Option<Command>,
}

/// A command.
#[derive(Debug)]
pub enum Command {
    /// Set the current directory up, with the default remote at this path.
    Init { path: String },
    /// Bring a remote in line with the current directory.
    Push(SyncArgs),
    /// Bring the current directory in line with a remote.
    Pull(SyncArgs),
    Remote { action: RemoteAction },
    Ignore { action: IgnoreAction },
}

/// How a sync is asked for.
#[derive(Debug)]
pub struct SyncArgs {
    /// The remote's name.
    pub remote: Option<String>,
    pub dry_run: bool,
    pub threads: Option<usize>,
    pub transfer_threads: Option<usize>,
    pub no_compress: bool,
    pub checksum: bool,
    pub delete: bool,
    pub no_delete: bool,
    pub quiet: bool,
    pub verbose: u8,
}

/// What to do with remotes.
#[derive(Debug)]
pub enum RemoteAction {
    Add { name: String, path: String },
    Remove { name: String },
    List,
}

/// What to do with patterns.
#[derive(Debug)]
pub enum IgnoreAction {
    Add { patterns: Vec<String> },
    Update { files: Vec<String> },
    Remove,
}

/// What is wrong with a command, if anything is: patterns and files must be given.
pub fn usage_error(command: &Command) -> (r: Option<&'static str>)
    ensures
        match command {
            Command::Ignore { action: IgnoreAction::Add { patterns } } => if patterns@.len() == 0 {
                r matches Some(m) && m@ == "usage: dsync ignore add <patterns…>"@
            } else {
                r is None
            },
            Command::Ignore { action: IgnoreAction::Update { files } } => if files@.len() == 0 {
                r matches Some(m) && m@ == "usage: dsync ignore update <files…>"@
            } else {
                r is None
            },
            _ => r is None,
        },
{
    match command {
        Command::Ignore { action } => match action {
            IgnoreAction::Add { patterns } => if patterns.len() == 0 {
                Some("usage: dsync ignore add <patterns…>")
            } else {
                None
            },
            IgnoreAction::Update { files } => if files.len() == 0 {
                Some("usage: dsync ignore update <files…>")
            } else {
                None
            },
            IgnoreAction::Remove => None,
        },
        _ => None,
    }
}

/// The exit code for an error.
pub open spec fn code_of(e: ErrorView) -> i32 {
    match e {
        ErrorView::NotInitialized => 3,
        ErrorView::Config(_) => 4,
        ErrorView::AlreadyInitialized => 4,
        ErrorView::Ssh(_) => 5,
        ErrorView::Protocol(_) => 5,
        ErrorView::Integrity(_) => 6,
        ErrorView::Io { .. } => 1,
        ErrorView::Other(_) => 1,
    }
}

/// The exit code for an error.
pub fn exit_code(err: &DsyncError) -> (r: i32)
    ensures
        r == code_of(err@),
{
    match err {
        DsyncError::NotInitialized => 3,
        DsyncError::Config(_) | DsyncError::AlreadyInitialized => 4,
        DsyncError::Ssh(_) | DsyncError::Protocol(_) => 5,
        DsyncError::Integrity(_) => 6,
        DsyncError::Io { .. } | DsyncError::Other(_) => 1,
    }
}

/// How many files to work on at a time when `requested` are asked for on a machine with `cores`
/// processors: as many as there are processors for 0, and four times as many at most.
pub open spec fn workers(requested: int, cores: int) -> int {
    let n = if cores < 1 {
        1
    } else {
        cores
    };
    if requested == 0 {
        n
    } else if requested > n * 4 {
        n * 4
    } else {
        requested
    }
}

/// How many files to work on at a time on a machine with `cores` processors.
pub fn threads_for(requested: usize, cores: usize) -> (r: usize)
    ensures
        r == workers(requested as int, cores as int),
{
    let n: usize = if cores < 1 {
        1
    } else {
        cores
    };
    if requested == 0 {
        return n;
    }
    if requested / 4 > n || (requested / 4 == n && requested % 4 > 0) {
        n * 4
    } else {
        requested
    }
}

/// `num_cpus::get`: the number of processors of this machine, and left open therefore.
#[verifier::external_body]
fn processors() -> (r: usize) {
    num_cpus::get()
}

/// How many files to work on at a time on this machine.
pub fn resolve_threads(requested: usize) -> (r: usize)
    ensures
        exists|cores: usize| r == #[trigger] workers(requested as int, cores as int),
{
    let cores = processors();
    let r = threads_for(requested, cores);
    assert(r == workers(requested as int, cores as int));
    r
}

/// How many threads are asked for, on the command line or in the configuration.
pub open spec fn requested_threads(args: &SyncArgs, cfg: &Config) -> int {
    match args.threads {
        Some(n) => n as int,
        None => cfg.threads as int,
    }
}

/// How many channels to open to a remote host: one unless more are asked for.
pub open spec fn channels(args: &SyncArgs) -> int {
    match args.transfer_threads {
        Some(n) => if n == 0 {
            1
        } else {
            n as int
        },
        None => 1,
    }
}

/// Whether data is compressed: the configuration must want it, and the command line must not forbid
/// it.
pub open spec fn compresses(args: &SyncArgs, cfg: &Config) -> bool {
    cfg.compression && !args.no_compress
}

/// Whether what the sender does not have is deleted: always, unless the command line forbids it.
pub open spec fn deletes(args: &SyncArgs) -> bool {
    !args.no_delete
}

/// The command line can forbid compressing and deleting. It cannot make data be compressed that the
/// configuration wants to go as it is, and deleting need not be asked for.
pub proof fn law_command_line_can_forbid(args: &SyncArgs, cfg: &Config)
    ensures
        args.no_compress ==> !compresses(args, cfg),
        !cfg.compression ==> !compresses(args, cfg),
        cfg.compression && !args.no_compress ==> compresses(args, cfg),
        args.no_delete ==> !deletes(args),
        !args.no_delete ==> deletes(args),
{
}

/// How a sync is to be done: what the command line asks for goes before what the configuration
/// says. `cores` is the number of processors.
pub fn options_for(direction: SyncDirection, args: &SyncArgs, cfg: &Config, cores: usize) -> (r:
    SyncOptions)
    ensures
        r.direction == direction,
        r.dry_run == args.dry_run,
        r.threads == workers(
            requested_threads(args, cfg),
            cores as int,
        ),
        r.transfer_threads == channels(args),
        r.compress == compresses(args, cfg),
        r.compress == (!args.no_compress && cfg.compression),
        r.compression_level == cfg.compression_level,
        r.checksum == args.checksum,
        r.delete == deletes(args),
        r.delete == !args.no_delete,
        r.quiet == args.quiet,
{
    let requested: usize = match args.threads {
        Some(n) => n,
        None => cfg.threads,
    };
    let channels: usize = match args.transfer_threads {
        Some(n) => if n == 0 {
            1
        } else {
            n
        },
        None => 1,
    };
    SyncOptions {
        direction,
        dry_run: args.dry_run,
        threads: threads_for(requested, cores),
        transfer_threads: channels,
        compress: if args.no_compress {
            false
        } else {
            cfg.compression
        },
        compression_level: cfg.compression_level,
        checksum: args.checksum,
        delete: !args.no_delete,
        quiet: args.quiet,
    }
}

/// How a sync is to be done on this machine.
pub fn sync_options(direction: SyncDirection, args: &SyncArgs, cfg: &Config) -> (r: SyncOptions)
    ensures
        r.direction == direction,
        r.dry_run == args.dry_run,
        exists|cores: usize|
            r.threads == #[trigger] workers(
                requested_threads(args, cfg),
                cores as int,
            ),
        r.transfer_threads == channels(args),
        r.compress == (!args.no_compress && cfg.compression),
        r.compression_level == cfg.compression_level,
        r.checksum == args.checksum,
        r.delete == !args.no_delete,
        r.quiet == args.quiet,
{
    options_for(direction, args, cfg, processors())
}

/// The flag that makes the program an agent.
pub const SERVER_FLAG: &'static str = "--server";

/// The place of the first flag that makes the program an agent; the length if there is none.
pub open spec fn server_flag_at(args: Seq<Seq<char>>) -> int
    decreases args.len(),
{
    if args.len() == 0 || args[0] == SERVER_FLAG@ {
        0
    } else {
        1 + server_flag_at(args.drop_first())
    }
}

/// The tree that an agent is to serve: what follows the flag, or the current directory.
pub open spec fn served(args: Seq<Seq<char>>) -> Option<Seq<char>> {
    let n = server_flag_at(args);
    if n >= args.len() {
        None
    } else if n + 1 < args.len() {
        Some(args[n + 1])
    } else {
        Some("."@)
    }
}

proof fn lemma_server_flag_at(args: Seq<Seq<char>>, i: int)
    requires
        0 <= i <= args.len(),
        forall|k: int| 0 <= k < i ==> #[trigger] args[k] != SERVER_FLAG@,
        i < args.len() ==> args[i] == SERVER_FLAG@,
    ensures
        server_flag_at(args) == i,
    decreases i,
{
    if i > 0 {
        let rest = args.drop_first();
        assert(args[0] != SERVER_FLAG@);
        assert forall|k: int| 0 <= k < i - 1 implies #[trigger] rest[k] != SERVER_FLAG@ by {
            assert(args[k + 1] != SERVER_FLAG@);
        }
        lemma_server_flag_at(rest, i - 1);
    }
}

/// The tree that an agent is to serve, if the arguments ask for an agent.
pub fn server_root(args: &Vec<String>) -> (r: Option<String>)
    ensures
        text::opt(r) == served(text::views(args@)),
{
    let ghost all = text::views(args@);
    let mut i: usize = 0;
    while i < args.len() && !text::same(args[i].as_str(), SERVER_FLAG)
        invariant
            i <= args@.len(),
            all == text::views(args@),
            forall|k: int| 0 <= k < i ==> #[trigger] all[k] != SERVER_FLAG@,
        decreases args@.len() - i,
    {
        assert(all[i as int] == args@[i as int]@);
        i = i + 1;
    }
    proof {
        if i < args@.len() {
            assert(all[i as int] == args@[i as int]@);
        }
        lemma_server_flag_at(all, i as int);
    }
    if i == args.len() {
        return None;
    }
    if i + 1 < args.len() {
        Some(args[i + 1].clone())
    } else {
        Some(".".to_owned())
    }
}


/// The exit code tells what went wrong: 3 for a directory without a configuration, 4 for a
/// configuration, 5 for a connection, 6 for a file that did not arrive, and 1 for all else.
pub proof fn law_exit_code_tells_what_went_wrong(e: ErrorView)
    ensures
        code_of(e) == 3 <==> e is NotInitialized,
        code_of(e) == 4 <==> e is Config || e is AlreadyInitialized,
        code_of(e) == 5 <==> e is Ssh || e is Protocol,
        code_of(e) == 6 <==> e is Integrity,
        code_of(e) == 1 <==> e is Io || e is Other,
{
}

/// As many files are worked on at a time as are asked for, up to four for each processor; none asked
/// for means one for each processor. There is always one processor at least.
pub proof fn law_workers_are_as_asked_for(requested: int, cores: int)
    requires
        requested >= 0,
    ensures
        cores >= 1 ==> workers(0, cores) == cores,
        cores >= 1 && 1 <= requested <= 4 * cores ==> workers(requested, cores) == requested,
        cores >= 1 && requested > 4 * cores ==> workers(requested, cores) == 4 * cores,
        cores < 1 ==> workers(requested, cores) == workers(requested, 1),
        workers(requested, cores) >= 1,
{
}

/// What the command line asks for goes before what the configuration says, and one channel is opened
/// unless more are asked for.
pub proof fn law_command_line_goes_first(args: &SyncArgs, cfg: &Config)
    ensures
        args.threads matches Some(n) ==> requested_threads(args, cfg) == n,
        args.threads is None ==> requested_threads(args, cfg) == cfg.threads,
        args.transfer_threads matches Some(n) ==> (n > 0 ==> channels(args) == n),
        args.transfer_threads == Some(0usize) || args.transfer_threads is None ==> channels(args)
            == 1,
{
}

/// An agent serves what stands behind the first flag for it, or the current directory if nothing
/// does; without the flag there is no agent.
pub proof fn law_agent_serves_what_follows_the_flag(
    before: Seq<Seq<char>>,
    root: Seq<char>,
    rest: Seq<Seq<char>>,
)
    requires
        !before.contains("--server"@),
    ensures
        served(before) is None,
        served(before.push("--server"@)) == Some("."@),
        served(before.push("--server"@).push(root) + rest) == Some(root),
{
    assert forall|k: int| 0 <= k < before.len() implies #[trigger] before[k] != SERVER_FLAG@ by {
        assert(before.contains(before[k]));
    }
    let n = before.len() as int;
    lemma_server_flag_at(before, n);
    let one = before.push("--server"@);
    assert forall|k: int| 0 <= k < n implies #[trigger] one[k] != SERVER_FLAG@ by {
        assert(one[k] == before[k]);
    }
    lemma_server_flag_at(one, n);
    let more = one.push(root) + rest;
    assert forall|k: int| 0 <= k < n implies #[trigger] more[k] != SERVER_FLAG@ by {
        assert(more[k] == before[k]);
    }
    assert(more[n] == SERVER_FLAG@);
    lemma_server_flag_at(more, n);
}

} // verus!
