//! Making two trees the same.
//!
//! A run compares what both sides list, and turns the difference into steps on the receiver.
//! The program around the library performs the steps one after the other and reports how each
//! went; `Run` decides what comes next and what the run comes to.
use vstd::prelude::*;

use crate::error::DsyncError;
use crate::error::ErrorView;
use crate::path;
use crate::sync::plan::SyncPlan;
use crate::sync::plan::TransferItem;
use crate::sync::scan::Indexed;
use crate::sync::transfer::TransferOutcome;
use crate::text;

pub mod outcome;
pub mod plan;
pub mod scan;
pub mod transfer;

verus! {

/// Which side is brought in line with the other.
#[derive(Clone, Copy, Debug, PartialEq, Eq, Structural)]
pub enum SyncDirection {
    /// The remote with the source.
    Push,
    /// The source with the remote.
    Pull,
}

impl SyncDirection {
    /// The word for the direction.
    pub open spec fn name(self) -> Seq<char> {
        match self {
            SyncDirection::Push => "push"@,
            SyncDirection::Pull => "pull"@,
        }
    }

    /// The word for the direction.
    pub fn label(&self) -> (r: &'static str)
        ensures
            r@ == self.name(),
    {
        match self {
            SyncDirection::Push => "push",
            SyncDirection::Pull => "pull",
        }
    }

    /// Whether the source directory is the sender; otherwise the remote is.
    pub fn source_sends(&self) -> (r: bool)
        ensures
            r == (self is Push),
    {
        match self {
            SyncDirection::Push => true,
            SyncDirection::Pull => false,
        }
    }
}

/// How a run is to be done.
#[derive(Debug)]
pub struct SyncOptions {
    pub direction: SyncDirection,
    /// Only say what would be done.
    pub dry_run: bool,
    /// How many files are worked on at a time.
    pub threads: usize,
    /// How many channels are opened to a remote host.
    pub transfer_threads: usize,
    pub compress: bool,
    pub compression_level: i32,
    /// Compare by content.
    pub checksum: bool,
    /// Remove what the sender does not have.
    pub delete: bool,
    pub quiet: bool,
}

/// What a run came to.
#[derive(Debug)]
pub struct SyncSummary {
    pub direction_label: &'static str,
    pub files_transferred: usize,
    pub files_deleted: usize,
    pub files_unchanged: usize,
    pub symlinks_skipped: usize,
    /// Bytes that left either side.
    pub bytes_transferred: u64,
    /// Bytes in the files that had to be transferred.
    pub total_bytes: u64,
    pub dry_run: bool,
}

/// One thing to do on the receiver.
#[derive(Debug)]
pub enum Step {
    /// Remove what has the wrong kind.
    Remove(String),
    /// Create a directory, and those above it, with these permission bits.
    Mkdir(String, u32),
    /// Transfer files, in any order or at the same time.
    Transfer(Vec<TransferItem>),
    /// Remove an extraneous file.
    Delete(String),
    /// Remove a directory if it is empty. Failing is no failure.
    Prune(String),
}

/// A step, with its paths as sequences of characters.
pub enum StepView {
    Remove(Seq<char>),
    Mkdir(Seq<char>, u32),
    Transfer(Seq<TransferItem>),
    Delete(Seq<char>),
    Prune(Seq<char>),
}

impl View for Step {
    type V = StepView;

    open spec fn view(&self) -> StepView {
        match self {
            Step::Remove(p) => StepView::Remove(p@),
            Step::Mkdir(p, mode) => StepView::Mkdir(p@, *mode),
            Step::Transfer(items) => StepView::Transfer(items@),
            Step::Delete(p) => StepView::Delete(p@),
            Step::Prune(p) => StepView::Prune(p@),
        }
    }
}

/// The views of a list of steps.
pub open spec fn step_views(v: Seq<Step>) -> Seq<StepView> {
    Seq::new(v.len(), |i: int| v[i]@)
}

/// A removal of each path.
pub open spec fn removals(list: Seq<Seq<char>>) -> Seq<StepView> {
    Seq::new(list.len(), |i: int| StepView::Remove(list[i]))
}

/// The permission bits for a new directory: the sender's, or the usual ones if the sender has no
/// such directory.
pub open spec fn dir_mode(sender: &Indexed, p: Seq<char>) -> u32 {
    if sender.dirs@.contains_key(p) {
        sender.dirs@[p].mode
    } else {
        0o755
    }
}

/// A creation of each directory, with its permission bits.
pub open spec fn creations(list: Seq<Seq<char>>, sender: &Indexed) -> Seq<StepView> {
    Seq::new(list.len(), |i: int| StepView::Mkdir(list[i], dir_mode(sender, list[i])))
}

/// A deletion of each file.
pub open spec fn deletions(list: Seq<Seq<char>>) -> Seq<StepView> {
    Seq::new(list.len(), |i: int| StepView::Delete(list[i]))
}

/// A try to remove each directory.
pub open spec fn prunings(list: Seq<Seq<char>>) -> Seq<StepView> {
    Seq::new(list.len(), |i: int| StepView::Prune(list[i]))
}

/// Whether `p` lies below one of `tops`.
pub open spec fn below_any(tops: Seq<Seq<char>>, p: Seq<char>) -> bool {
    exists|i: int| 0 <= i < tops.len() && path::lies_below(p, #[trigger] tops[i])
}

/// The paths of the list that lie below one of `tops`, or the others, in order.
pub open spec fn picked(list: Seq<Seq<char>>, tops: Seq<Seq<char>>, under: bool) -> Seq<Seq<char>>
    decreases list.len(),
{
    if list.len() == 0 {
        Seq::empty()
    } else {
        let before = picked(list.drop_last(), tops, under);
        if below_any(tops, list.last()) == under {
            before.push(list.last())
        } else {
            before
        }
    }
}

/// The deletions, and the tries to remove directories, of what lies below one of `tops`, or of the
/// rest.
pub open spec fn clearings(
    gone: Seq<Seq<char>>,
    prune: Seq<Seq<char>>,
    tops: Seq<Seq<char>>,
    under: bool,
) -> Seq<StepView> {
    deletions(picked(gone, tops, under)) + prunings(picked(prune, tops, under))
}

/// All the steps of a run, in order. What has the wrong kind is removed first; if extraneous files
/// are to go, those that lie below it go before it, and the others at the end. A dry run has no
/// steps.
pub open spec fn script(
    plan: &SyncPlan,
    sender: &Indexed,
    prune: Seq<Seq<char>>,
    delete: bool,
    dry_run: bool,
) -> Seq<StepView> {
    let retype = text::views(plan.retype@);
    let gone = text::views(plan.delete@);
    let middle = removals(retype) + creations(text::views(plan.create_dirs@), sender) + seq![
        StepView::Transfer(plan.transfer@),
    ];
    if dry_run {
        Seq::empty()
    } else if delete {
        clearings(gone, prune, retype, true) + middle + clearings(gone, prune, retype, false)
    } else {
        middle
    }
}

/// How many of the sender's files are left as they are.
pub open spec fn unchanged(listed: int, planned: int) -> int {
    if planned <= listed {
        listed - planned
    } else {
        0
    }
}

/// Whether a run goes on after a step: it worked, or it was only a try.
pub open spec fn goes_on(step: StepView, worked: bool) -> bool {
    worked || step is Prune
}

/// A step that did not work ends the run, except a try to remove a directory; one that worked never
/// does.
pub proof fn law_only_a_try_may_fail(step: StepView)
    ensures
        goes_on(step, true),
        step is Remove || step is Mkdir || step is Transfer || step is Delete ==> !goes_on(
            step,
            false,
        ),
        step is Prune ==> goes_on(step, false),
{
}

/// How many of the steps delete a file.
pub open spec fn count_deletions(steps: Seq<StepView>) -> nat
    decreases steps.len(),
{
    if steps.len() == 0 {
        0
    } else {
        count_deletions(steps.drop_last()) + if steps.last() is Delete {
            1nat
        } else {
            0nat
        }
    }
}

/// The lines for failed files.
pub open spec fn failure_lines(failures: Seq<(String, String)>) -> Seq<char>
    decreases failures.len(),
{
    if failures.len() == 0 {
        Seq::empty()
    } else {
        let before = failure_lines(failures.drop_last());
        let line = "  "@ + failures.last().0@ + ": "@ + failures.last().1@;
        if failures.len() == 1 {
            line
        } else {
            before + "\n"@ + line
        }
    }
}

/// What is said when files could not be transferred.
pub open spec fn failure_message(failures: Seq<(String, String)>) -> Seq<char> {
    text::decimal(failures.len()) + " file(s) failed to transfer:\n"@ + failure_lines(failures)
}

/// The lines for failed files.
fn list_failures(failures: &Vec<(String, String)>) -> (r: String)
    ensures
        r@ == failure_lines(failures@),
{
    let mut out = String::new();
    let mut i: usize = 0;
    assert(failures@.take(0).len() == 0);
    assert(out@ =~= failure_lines(failures@.take(0)));
    while i < failures.len()
        invariant
            i <= failures@.len(),
            out@ == failure_lines(failures@.take(i as int)),
        decreases failures@.len() - i,
    {
        let ghost before = out@;
        proof {
            assert(failures@.take(i + 1).drop_last() =~= failures@.take(i as int));
            assert(failures@.take(i + 1).last() == failures@[i as int]);
        }
        if i > 0 {
            out.append("\n");
        }
        let ghost start = out@;
        out.append("  ");
        out.append(failures[i].0.as_str());
        out.append(": ");
        out.append(failures[i].1.as_str());
        proof {
            let line = "  "@ + failures@[i as int].0@ + ": "@ + failures@[i as int].1@;
            assert(out@ =~= start + line);
        }
        i = i + 1;
    }
    assert(failures@.take(i as int) =~= failures@);
    out
}

/// Whether `p` lies below one of `tops`.
fn is_below_any(tops: &Vec<String>, p: &str) -> (r: bool)
    ensures
        r == below_any(text::views(tops@), p@),
{
    let ghost all = text::views(tops@);
    let mut i: usize = 0;
    while i < tops.len()
        invariant
            i <= tops@.len(),
            all == text::views(tops@),
            forall|k: int| 0 <= k < i ==> !path::lies_below(p@, #[trigger] all[k]),
        decreases tops@.len() - i,
    {
        assert(all[i as int] == tops@[i as int]@);
        if path::is_below(p, tops[i].as_str()) {
            return true;
        }
        i = i + 1;
    }
    false
}

/// The paths of the list that lie below one of `tops`, or the others, in order.
fn pick(list: &Vec<String>, tops: &Vec<String>, under: bool) -> (r: Vec<String>)
    ensures
        text::views(r@) == picked(text::views(list@), text::views(tops@), under),
{
    let ghost all = text::views(list@);
    let ghost over = text::views(tops@);
    let mut out: Vec<String> = Vec::new();
    let mut i: usize = 0;
    assert(all.take(0).len() == 0);
    assert(text::views(out@) =~= picked(all.take(0), over, under));
    while i < list.len()
        invariant
            i <= list@.len(),
            all == text::views(list@),
            over == text::views(tops@),
            text::views(out@) == picked(all.take(i as int), over, under),
        decreases list@.len() - i,
    {
        proof {
            assert(all[i as int] == list@[i as int]@);
            assert(all.take(i + 1).drop_last() =~= all.take(i as int));
            assert(all.take(i + 1).last() == all[i as int]);
        }
        if is_below_any(tops, list[i].as_str()) == under {
            let ghost before = text::views(out@);
            out.push(list[i].clone());
            assert(text::views(out@) =~= before.push(all[i as int]));
        }
        i = i + 1;
    }
    assert(all.take(i as int) =~= all);
    out
}

/// Adds a removal of each path.
fn add_removals(steps: &mut Vec<Step>, list: &Vec<String>)
    ensures
        step_views(final(steps)@) == step_views(old(steps)@) + removals(text::views(list@)),
{
    let ghost so_far = step_views(steps@);
    let ghost all = removals(text::views(list@));
    let mut i: usize = 0;
    assert(step_views(steps@) =~= so_far + all.take(0));
    while i < list.len()
        invariant
            i <= list@.len(),
            all == removals(text::views(list@)),
            step_views(steps@) == so_far + all.take(i as int),
        decreases list@.len() - i,
    {
        let ghost before = steps@;
        steps.push(Step::Remove(list[i].clone()));
        assert(step_views(steps@) =~= step_views(before).push(all[i as int]));
        assert(so_far + all.take(i + 1) =~= (so_far + all.take(i as int)).push(all[i as int]));
        i = i + 1;
    }
    assert(all.take(i as int) =~= all);
}

/// Adds a creation of each directory, with its permission bits.
fn add_creations(steps: &mut Vec<Step>, list: &Vec<String>, sender: &Indexed)
    requires
        sender.wf(),
    ensures
        step_views(final(steps)@) == step_views(old(steps)@) + creations(
            text::views(list@),
            sender,
        ),
{
    let ghost so_far = step_views(steps@);
    let ghost all = creations(text::views(list@), sender);
    let mut i: usize = 0;
    assert(step_views(steps@) =~= so_far + all.take(0));
    while i < list.len()
        invariant
            i <= list@.len(),
            sender.wf(),
            all == creations(text::views(list@), sender),
            step_views(steps@) == so_far + all.take(i as int),
        decreases list@.len() - i,
    {
        let ghost before = steps@;
        let rel = list[i].clone();
        assert(rel@ == text::views(list@)[i as int]);
        let mode = match sender.dirs.get(rel.as_str()) {
            Some(e) => e.mode,
            None => 0o755,
        };
        steps.push(Step::Mkdir(rel, mode));
        assert(step_views(steps@) =~= step_views(before).push(all[i as int]));
        assert(so_far + all.take(i + 1) =~= (so_far + all.take(i as int)).push(all[i as int]));
        i = i + 1;
    }
    assert(all.take(i as int) =~= all);
}

/// Adds the deletions, and the tries to remove directories, of what lies below one of `tops`, or
/// of the rest.
fn add_clearings(
    steps: &mut Vec<Step>,
    gone: &Vec<String>,
    prune: &Vec<String>,
    tops: &Vec<String>,
    under: bool,
)
    ensures
        step_views(final(steps)@) == step_views(old(steps)@) + clearings(
            text::views(gone@),
            text::views(prune@),
            text::views(tops@),
            under,
        ),
{
    let ghost so_far = step_views(steps@);
    let list = pick(gone, tops, under);
    let ghost all = deletions(text::views(list@));
    let mut i: usize = 0;
    assert(step_views(steps@) =~= so_far + all.take(0));
    while i < list.len()
        invariant
            i <= list@.len(),
            all == deletions(text::views(list@)),
            step_views(steps@) == so_far + all.take(i as int),
        decreases list@.len() - i,
    {
        let ghost before = steps@;
        steps.push(Step::Delete(list[i].clone()));
        assert(step_views(steps@) =~= step_views(before).push(all[i as int]));
        assert(so_far + all.take(i + 1) =~= (so_far + all.take(i as int)).push(all[i as int]));
        i = i + 1;
    }
    assert(all.take(i as int) =~= all);
    let ghost later = step_views(steps@);
    let dirs = pick(prune, tops, under);
    let ghost tries = prunings(text::views(dirs@));
    let mut i: usize = 0;
    assert(step_views(steps@) =~= later + tries.take(0));
    while i < dirs.len()
        invariant
            i <= dirs@.len(),
            tries == prunings(text::views(dirs@)),
            step_views(steps@) == later + tries.take(i as int),
        decreases dirs@.len() - i,
    {
        let ghost before = steps@;
        steps.push(Step::Prune(dirs[i].clone()));
        assert(step_views(steps@) =~= step_views(before).push(tries[i as int]));
        assert(later + tries.take(i + 1) =~= (later + tries.take(i as int)).push(tries[i as int]));
        i = i + 1;
    }
    assert(tries.take(i as int) =~= tries);
    assert(step_views(steps@) =~= so_far + (all + tries));
}

/// A run under way.
pub struct Run {
    steps: Vec<Step>,
    at: usize,
    direction: SyncDirection,
    planned: usize,
    listed: usize,
    symlinks: usize,
    total_bytes: u64,
    transferred: usize,
    deleted: usize,
}

impl Run {
    /// All the steps of the run.
    pub closed spec fn steps(&self) -> Seq<StepView> {
        step_views(self.steps@)
    }

    /// How many steps are done.
    pub closed spec fn done(&self) -> int {
        self.at as int
    }

    pub closed spec fn direction(&self) -> SyncDirection {
        self.direction
    }

    /// How many files the plan transfers.
    pub closed spec fn planned(&self) -> int {
        self.planned as int
    }

    /// How many files the sender has.
    pub closed spec fn listed(&self) -> int {
        self.listed as int
    }

    /// How many symbolic links the sender has.
    pub closed spec fn symlinks(&self) -> int {
        self.symlinks as int
    }

    pub closed spec fn total_bytes(&self) -> u64 {
        self.total_bytes
    }

    /// How many files arrived.
    pub closed spec fn transferred(&self) -> int {
        self.transferred as int
    }

    /// What stays the same while the run goes on.
    pub open spec fn same_run(&self, other: &Run) -> bool {
        &&& self.steps() == other.steps()
        &&& self.direction() == other.direction()
        &&& self.planned() == other.planned()
        &&& self.listed() == other.listed()
        &&& self.symlinks() == other.symlinks()
        &&& self.total_bytes() == other.total_bytes()
    }

    /// The steps done are among the steps, and the deletions among them are counted.
    pub closed spec fn wf(&self) -> bool {
        &&& 0 <= self.done() <= self.steps().len()
        &&& self.deleted == count_deletions(self.steps().take(self.done()))
    }

    /// A run that is about to start.
    pub fn new(
        plan: SyncPlan,
        sender: &Indexed,
        prune: &Vec<String>,
        direction: SyncDirection,
        delete: bool,
        dry_run: bool,
    ) -> (r: Run)
        requires
            sender.wf(),
        ensures
            r.wf(),
            r.done() == 0,
            r.steps() == script(&plan, sender, text::views(prune@), delete, dry_run),
            r.direction() == direction,
            r.planned() == plan.transfer@.len(),
            r.listed() == sender.files.order().len(),
            r.symlinks() == sender.symlinks,
            r.total_bytes() == plan.total_bytes,
            r.transferred() == 0,
    {
        let planned = plan.transfer.len();
        let total_bytes = plan.total_bytes;
        let mut steps: Vec<Step> = Vec::new();
        let ghost retype = text::views(plan.retype@);
        let ghost whole = script(&plan, sender, text::views(prune@), delete, dry_run);
        if !dry_run {
            if delete {
                add_clearings(&mut steps, &plan.delete, prune, &plan.retype, true);
            }
            add_removals(&mut steps, &plan.retype);
            add_creations(&mut steps, &plan.create_dirs, sender);
            let ghost before = steps@;
            steps.push(Step::Transfer(plan.transfer));
            assert(step_views(steps@) =~= step_views(before) + seq![
                StepView::Transfer(plan.transfer@),
            ]);
            if delete {
                add_clearings(&mut steps, &plan.delete, prune, &plan.retype, false);
            }
        }
        assert(step_views(steps@) =~= whole);
        let r = Run {
            steps,
            at: 0,
            direction,
            planned,
            listed: sender.files.len(),
            symlinks: sender.symlinks,
            total_bytes,
            transferred: 0,
            deleted: 0,
        };
        assert(r.steps().take(0).len() == 0);
        r
    }

    /// The step to do now; none when the run is over.
    pub fn step(&self) -> (r: Option<&Step>)
        requires
            self.wf(),
        ensures
            match r {
                Some(s) => self.done() < self.steps().len() && s@ == self.steps()[self.done()],
                None => self.done() == self.steps().len(),
            },
    {
        if self.at < self.steps.len() {
            Some(&self.steps[self.at])
        } else {
            None
        }
    }

    /// Takes note of how a step other than a transfer went. A failure ends the run, except that
    /// of a directory that could not be pruned.
    pub fn report(&mut self, result: Result<(), DsyncError>) -> (r: Result<(), DsyncError>)
        requires
            old(self).wf(),
            old(self).done() < old(self).steps().len(),
            !(old(self).steps()[old(self).done()] is Transfer),
        ensures
            final(self).wf(),
            final(self).same_run(old(self)),
            final(self).transferred() == old(self).transferred(),
            r is Ok <==> goes_on(old(self).steps()[old(self).done()], result is Ok),
            final(self).done() == if goes_on(old(self).steps()[old(self).done()], result is Ok) {
                old(self).done() + 1
            } else {
                old(self).done()
            },
            match (result, r) {
                (Ok(_), Ok(_)) => final(self).done() == old(self).done() + 1,
                (Err(_), Ok(_)) => {
                    &&& old(self).steps()[old(self).done()] is Prune
                    &&& final(self).done() == old(self).done() + 1
                },
                (Err(why), Err(e)) => !(old(self).steps()[old(self).done()] is Prune) && e == why
                    && final(self).done() == old(self).done(),
                (Ok(_), Err(_)) => false,
            },
    {
        let ghost steps = self.steps();
        let ghost i = self.done();
        proof {
            assert(steps.take(i + 1).drop_last() =~= steps.take(i));
            lemma_deletions_bound(steps.take(i + 1));
            assert(self.at < self.steps.len());
        }
        let (optional, deletes) = match &self.steps[self.at] {
            Step::Prune(_) => (true, false),
            Step::Delete(_) => (false, true),
            _ => (false, false),
        };
        if !optional {
            if let Err(e) = result {
                return Err(e);
            }
        }
        if deletes {
            self.deleted = self.deleted + 1;
        }
        self.at = self.at + 1;
        Ok(())
    }

    /// Takes note of how the transfer went. Any file that failed ends the run.
    pub fn report_transfer(&mut self, outcome: TransferOutcome) -> (r: Result<(), DsyncError>)
        requires
            old(self).wf(),
            old(self).done() < old(self).steps().len(),
            old(self).steps()[old(self).done()] is Transfer,
        ensures
            final(self).wf(),
            final(self).same_run(old(self)),
            r is Ok <==> goes_on(
                old(self).steps()[old(self).done()],
                outcome.failures@.len() == 0,
            ),
            match r {
                Ok(_) => {
                    &&& outcome.failures@.len() == 0
                    &&& final(self).done() == old(self).done() + 1
                    &&& final(self).transferred() == outcome.transferred
                },
                Err(e) => {
                    &&& outcome.failures@.len() > 0
                    &&& e@ == ErrorView::Other(failure_message(outcome.failures@))
                    &&& final(self).done() == old(self).done()
                    &&& final(self).transferred() == old(self).transferred()
                },
            },
    {
        let ghost steps = self.steps();
        let ghost i = self.done();
        assert(steps.take(i + 1).drop_last() =~= steps.take(i));
        assert(self.at < self.steps.len());
        if outcome.failures.len() > 0 {
            let mut m = text::show_u64(outcome.failures.len() as u64);
            m.append(" file(s) failed to transfer:\n");
            let list = list_failures(&outcome.failures);
            m.append(list.as_str());
            return Err(DsyncError::Other(m));
        }
        self.transferred = outcome.transferred;
        self.at = self.at + 1;
        Ok(())
    }

    /// What the run came to, once it is over. `sent` are the bytes that left each side.
    pub fn summary(&self, sent: (u64, u64)) -> (r: SyncSummary)
        requires
            self.wf(),
            self.done() == self.steps().len(),
            sent.0 + sent.1 <= u64::MAX,
        ensures
            r.direction_label@ == self.direction().name(),
            r.files_transferred == self.transferred(),
            r.files_deleted == count_deletions(self.steps()),
            r.files_unchanged == unchanged(self.listed(), self.planned()),
            r.symlinks_skipped == self.symlinks(),
            r.bytes_transferred == sent.0 + sent.1,
            r.total_bytes == self.total_bytes(),
            !r.dry_run,
    {
        assert(self.steps().take(self.done()) =~= self.steps());
        SyncSummary {
            direction_label: self.direction.label(),
            files_transferred: self.transferred,
            files_deleted: self.deleted,
            files_unchanged: self.listed.saturating_sub(self.planned),
            symlinks_skipped: self.symlinks,
            bytes_transferred: sent.0 + sent.1,
            total_bytes: self.total_bytes,
            dry_run: false,
        }
    }
}

/// What a dry run came to: what the plan would do.
pub fn dry_run_summary(
    direction: SyncDirection,
    delete: bool,
    plan: &SyncPlan,
    listed: usize,
    symlinks: usize,
) -> (r: SyncSummary)
    ensures
        r.direction_label@ == direction.name(),
        r.files_transferred == plan.transfer@.len(),
        r.files_deleted == if delete {
            plan.delete@.len()
        } else {
            0
        },
        r.files_unchanged == unchanged(listed as int, plan.transfer@.len() as int),
        r.symlinks_skipped == symlinks,
        r.bytes_transferred == 0,
        r.total_bytes == plan.total_bytes,
        r.dry_run,
{
    SyncSummary {
        direction_label: direction.label(),
        files_transferred: plan.transfer.len(),
        files_deleted: if delete {
            plan.delete.len()
        } else {
            0
        },
        files_unchanged: listed.saturating_sub(plan.transfer.len()),
        symlinks_skipped: symlinks,
        bytes_transferred: 0,
        total_bytes: plan.total_bytes,
        dry_run: true,
    }
}

/// The heading of a dry run's report.
pub open spec fn dry_run_heading(plan: &SyncPlan) -> Seq<char> {
    "dry-run: would transfer "@ + text::decimal(plan.transfer@.len()) + " file(s) ("@
        + text::decimal(plan.total_bytes as nat) + " bytes), delete "@ + text::decimal(
        plan.delete@.len(),
    ) + " file(s)"@
}

/// A dry run's report: the heading, and unless it is to be short, a line for each file.
pub open spec fn dry_run_report(plan: &SyncPlan, quiet: bool) -> Seq<Seq<char>> {
    let heading = seq![dry_run_heading(plan)];
    if quiet {
        heading
    } else {
        heading + plan::item_paths(plan.transfer@).map_values(
            |p: Seq<char>| "  transfer "@ + p,
        ) + text::views(plan.delete@).map_values(|p: Seq<char>| "  delete   "@ + p)
    }
}

/// A dry run's report, line by line.
pub fn dry_run_lines(plan: &SyncPlan, quiet: bool) -> (r: Vec<String>)
    ensures
        text::views(r@) == dry_run_report(plan, quiet),
{
    let mut head = text::glue(
        "dry-run: would transfer ",
        text::show_u64(plan.transfer.len() as u64).as_str(),
    );
    head.append(" file(s) (");
    head.append(text::show_u64(plan.total_bytes).as_str());
    head.append(" bytes), delete ");
    head.append(text::show_u64(plan.delete.len() as u64).as_str());
    head.append(" file(s)");
    let mut out: Vec<String> = Vec::new();
    out.push(head);
    assert(text::views(out@) =~= seq![dry_run_heading(plan)]);
    if quiet {
        return out;
    }
    let ghost heading = seq![dry_run_heading(plan)];
    let ghost items = plan::item_paths(plan.transfer@).map_values(
        |p: Seq<char>| "  transfer "@ + p,
    );
    let ghost gone = text::views(plan.delete@).map_values(|p: Seq<char>| "  delete   "@ + p);
    let mut i: usize = 0;
    assert(text::views(out@) =~= heading + items.take(0));
    while i < plan.transfer.len()
        invariant
            i <= plan.transfer@.len(),
            items == plan::item_paths(plan.transfer@).map_values(
                |p: Seq<char>| "  transfer "@ + p,
            ),
            text::views(out@) == heading + items.take(i as int),
        decreases plan.transfer@.len() - i,
    {
        let ghost before = text::views(out@);
        out.push(text::glue("  transfer ", plan.transfer[i].rel.as_str()));
        assert(text::views(out@) =~= before.push(items[i as int]));
        assert(heading + items.take(i + 1) =~= before.push(items[i as int]));
        i = i + 1;
    }
    assert(items.take(i as int) =~= items);
    let mut i: usize = 0;
    assert(text::views(out@) =~= heading + items + gone.take(0));
    while i < plan.delete.len()
        invariant
            i <= plan.delete@.len(),
            gone == text::views(plan.delete@).map_values(|p: Seq<char>| "  delete   "@ + p),
            text::views(out@) == heading + items + gone.take(i as int),
        decreases plan.delete@.len() - i,
    {
        let ghost before = text::views(out@);
        out.push(text::glue("  delete   ", plan.delete[i].as_str()));
        assert(text::views(out@) =~= before.push(gone[i as int]));
        assert(heading + items + gone.take(i + 1) =~= before.push(gone[i as int]));
        i = i + 1;
    }
    assert(gone.take(i as int) =~= gone);
    out
}

/// Whether a finished run found nothing to do.
pub open spec fn was_in_sync(summary: &SyncSummary) -> bool {
    !summary.dry_run && summary.files_transferred == 0 && summary.files_deleted == 0
}

/// The last line after a run that found nothing to do, unless the run is to be quiet.
pub fn closing_line(summary: &SyncSummary, quiet: bool) -> (r: Option<&'static str>)
    ensures
        match r {
            Some(line) => was_in_sync(summary) && !quiet && line@ == "Already in sync (0 changes)"@,
            None => !was_in_sync(summary) || quiet,
        },
{
    if !summary.dry_run && summary.files_transferred == 0 && summary.files_deleted == 0 && !quiet {
        Some("Already in sync (0 changes)")
    } else {
        None
    }
}

proof fn lemma_deletions_bound(steps: Seq<StepView>)
    ensures
        count_deletions(steps) <= steps.len(),
    decreases steps.len(),
{
    if steps.len() > 0 {
        lemma_deletions_bound(steps.drop_last());
    }
}


/// Without deleting, a run clears the paths of the wrong kind, creates the directories with the
/// sender's permissions, and transfers the files, in this order and nothing else.
pub proof fn law_steps_come_in_order(
    plan: &SyncPlan,
    sender: &Indexed,
    prune: Seq<Seq<char>>,
    i: int,
)
    ensures
        script(plan, sender, prune, false, false).len() == plan.retype@.len()
            + plan.create_dirs@.len() + 1,
        0 <= i < plan.retype@.len() ==> script(plan, sender, prune, false, false)[i]
            == StepView::Remove(plan.retype@[i]@),
        0 <= i < plan.create_dirs@.len() && sender.dirs@.contains_key(plan.create_dirs@[i]@)
            ==> script(plan, sender, prune, false, false)[plan.retype@.len() + i]
            == StepView::Mkdir(
            plan.create_dirs@[i]@,
            sender.dirs@[plan.create_dirs@[i]@].mode,
        ),
        script(plan, sender, prune, false, false)[(plan.retype@.len() + plan.create_dirs@.len()) as int]
            == StepView::Transfer(plan.transfer@),
        script(plan, sender, prune, true, true).len() == 0,
        script(plan, sender, prune, false, true).len() == 0,
{
}

/// With deleting, the same steps stand in the middle: before them goes what lies below a path of the
/// wrong kind, and behind them the rest, files before directories each time. `r` is how many steps
/// stand before.
pub proof fn law_deleting_is_done_around_the_rest(
    plan: &SyncPlan,
    sender: &Indexed,
    prune: Seq<Seq<char>>,
) -> (r: int)
    ensures
        ({
            let all = script(plan, sender, prune, true, false);
            let plain = script(plan, sender, prune, false, false);
            &&& 0 <= r
            &&& r + plain.len() <= all.len()
            &&& all.subrange(r, r + plain.len()) == plain
            &&& all.len() == plain.len() + plan.delete@.len() + prune.len()
            &&& forall|i: int|
                0 <= i < r ==> is_clearing_of(
                    #[trigger] all[i],
                    text::views(plan.delete@),
                    prune,
                ) && is_below_one(all[i], text::views(plan.retype@))
            &&& forall|i: int|
                r + plain.len() <= i < all.len() ==> is_clearing_of(
                    #[trigger] all[i],
                    text::views(plan.delete@),
                    prune,
                ) && !is_below_one(all[i], text::views(plan.retype@))
            &&& forall|p: Seq<char>| #[trigger]
                text::views(plan.delete@).contains(p) ==> all.contains(StepView::Delete(p))
            &&& forall|p: Seq<char>| #[trigger] prune.contains(p) ==> all.contains(StepView::Prune(p))
        }),
{
    let tops = text::views(plan.retype@);
    let gone = text::views(plan.delete@);
    let all = script(plan, sender, prune, true, false);
    let plain = script(plan, sender, prune, false, false);
    let before = clearings(gone, prune, tops, true);
    let after = clearings(gone, prune, tops, false);
    let r = before.len() as int;
    assert(all =~= before + plain + after);
    assert(all.subrange(r, r + plain.len()) =~= plain);
    lemma_picked(gone, tops);
    lemma_picked(prune, tops);
    assert forall|i: int| 0 <= i < before.len() implies is_clearing_of(
        #[trigger] before[i],
        gone,
        prune,
    ) && is_below_one(before[i], tops) by {
        let a = picked(gone, tops, true);
        let b = picked(prune, tops, true);
        if i < a.len() {
            assert(a.contains(a[i]));
        } else {
            assert(b.contains(b[i - a.len()]));
        }
    }
    assert forall|i: int| 0 <= i < after.len() implies is_clearing_of(
        #[trigger] after[i],
        gone,
        prune,
    ) && !is_below_one(after[i], tops) by {
        let a = picked(gone, tops, false);
        let b = picked(prune, tops, false);
        if i < a.len() {
            assert(a.contains(a[i]));
        } else {
            assert(b.contains(b[i - a.len()]));
        }
    }
    assert forall|i: int| 0 <= i < r implies is_clearing_of(#[trigger] all[i], gone, prune)
        && is_below_one(all[i], tops) by {
        assert(all[i] == before[i]);
    }
    assert forall|i: int| r + plain.len() <= i < all.len() implies is_clearing_of(
        #[trigger] all[i],
        gone,
        prune,
    ) && !is_below_one(all[i], tops) by {
        assert(all[i] == after[i - r - plain.len()]);
    }
    assert forall|p: Seq<char>| #[trigger] gone.contains(p) implies all.contains(
        StepView::Delete(p),
    ) by {
        let under = below_any(tops, p);
        let a = picked(gone, tops, under);
        assert(a.contains(p));
        let k = choose|k: int| 0 <= k < a.len() && a[k] == p;
        if under {
            assert(all[k] == StepView::Delete(p));
        } else {
            assert(all[r + plain.len() + k] == StepView::Delete(p));
        }
    }
    assert forall|p: Seq<char>| #[trigger] prune.contains(p) implies all.contains(
        StepView::Prune(p),
    ) by {
        let under = below_any(tops, p);
        let a = picked(gone, tops, under);
        let b = picked(prune, tops, under);
        assert(b.contains(p));
        let k = choose|k: int| 0 <= k < b.len() && b[k] == p;
        if under {
            assert(all[a.len() + k] == StepView::Prune(p));
        } else {
            assert(all[r + plain.len() + a.len() + k] == StepView::Prune(p));
        }
    }
    r
}

/// Whether a step deletes one of the files or tries to remove one of the directories.
pub open spec fn is_clearing_of(
    step: StepView,
    gone: Seq<Seq<char>>,
    prune: Seq<Seq<char>>,
) -> bool {
    match step {
        StepView::Delete(p) => gone.contains(p),
        StepView::Prune(p) => prune.contains(p),
        _ => false,
    }
}

/// Whether what a step deletes or removes lies below one of the paths.
pub open spec fn is_below_one(step: StepView, tops: Seq<Seq<char>>) -> bool {
    match step {
        StepView::Delete(p) => exists|i: int|
            0 <= i < tops.len() && path::lies_below(p, #[trigger] tops[i]),
        StepView::Prune(p) => exists|i: int|
            0 <= i < tops.len() && path::lies_below(p, #[trigger] tops[i]),
        _ => false,
    }
}

proof fn lemma_picked(list: Seq<Seq<char>>, tops: Seq<Seq<char>>)
    ensures
        picked(list, tops, true).len() + picked(list, tops, false).len() == list.len(),
        forall|p: Seq<char>| #[trigger]
            picked(list, tops, true).contains(p) <==> list.contains(p) && below_any(tops, p),
        forall|p: Seq<char>| #[trigger]
            picked(list, tops, false).contains(p) <==> list.contains(p) && !below_any(tops, p),
    decreases list.len(),
{
    if list.len() > 0 {
        let head = list.drop_last();
        let q = list.last();
        lemma_picked(head, tops);
        assert(list =~= head.push(q));
        lemma_push_has(head, q);
        lemma_push_has(picked(head, tops, true), q);
        lemma_push_has(picked(head, tops, false), q);
    }
}

proof fn lemma_push_has(list: Seq<Seq<char>>, q: Seq<char>)
    ensures
        forall|p: Seq<char>| #[trigger] list.push(q).contains(p) <==> list.contains(p) || p == q,
{
    assert forall|p: Seq<char>| #[trigger] list.push(q).contains(p) <==> list.contains(p) || p
        == q by {
        if list.push(q).contains(p) {
            let k = choose|k: int| 0 <= k < list.push(q).len() && list.push(q)[k] == p;
            if k < list.len() {
                assert(list[k] == p);
            }
        }
        if list.contains(p) {
            let k = choose|k: int| 0 <= k < list.len() && list[k] == p;
            assert(list.push(q)[k] == p);
        }
        assert(list.push(q)[list.len() as int] == q);
    }
}

/// The files that are transferred and those that are left make all the files that are listed.
pub proof fn law_no_file_is_lost_count_of(listed: int, planned: int)
    requires
        0 <= planned,
        0 <= listed,
    ensures
        planned <= listed ==> planned + unchanged(listed, planned) == listed,
        planned > listed ==> unchanged(listed, planned) == 0,
{
}

/// Every step that deletes a file adds one to the number of deletions, and no other step does.
pub proof fn law_deletions_are_counted(steps: Seq<StepView>, step: StepView)
    ensures
        count_deletions(Seq::empty()) == 0,
        step is Delete ==> count_deletions(steps.push(step)) == count_deletions(steps) + 1,
        !(step is Delete) ==> count_deletions(steps.push(step)) == count_deletions(steps),
{
    assert(steps.push(step).drop_last() =~= steps);
}

/// The message about failed files says how many there are and gives each a line of its own, in the
/// order of the failures, with its path and the reason.
pub proof fn law_every_failure_is_told(
    failures: Seq<(String, String)>,
    more: (String, String),
)
    ensures
        failures.len() == 0 ==> failure_message(failures.push(more)) == text::decimal(1)
            + " file(s) failed to transfer:\n"@ + ("  "@ + more.0@ + ": "@ + more.1@),
        failures.len() > 0 ==> failure_message(failures.push(more)) == text::decimal(
            failures.len() + 1,
        ) + " file(s) failed to transfer:\n"@ + (failure_lines(failures) + "\n"@ + ("  "@ + more.0@
            + ": "@ + more.1@)),
{
    assert(failures.push(more).drop_last() =~= failures);
}

/// A dry run's report names every file, those to transfer first, in the order of the plan; a quiet
/// one has its heading alone.
pub proof fn law_dry_run_names_every_file(plan: &SyncPlan, i: int)
    ensures
        dry_run_report(plan, true).len() == 1,
        dry_run_report(plan, false).len() == 1 + plan.transfer@.len() + plan.delete@.len(),
        dry_run_report(plan, true)[0] == dry_run_report(plan, false)[0],
        0 <= i < plan.transfer@.len() ==> dry_run_report(plan, false)[1 + i] == "  transfer "@
            + plan.transfer@[i].rel@,
        0 <= i < plan.delete@.len() ==> dry_run_report(plan, false)[1 + plan.transfer@.len() + i]
            == "  delete   "@ + plan.delete@[i]@,
        dry_run_report(plan, true)[0] == "dry-run: would transfer "@ + text::decimal(
            plan.transfer@.len(),
        ) + " file(s) ("@ + text::decimal(plan.total_bytes as nat) + " bytes), delete "@
            + text::decimal(plan.delete@.len()) + " file(s)"@,
{
}

/// A run was in sync exactly if it was none for show and neither transferred nor deleted a file.
pub proof fn law_in_sync_means_nothing_was_done(summary: &SyncSummary)
    ensures
        summary.dry_run ==> !was_in_sync(summary),
        summary.files_transferred > 0 ==> !was_in_sync(summary),
        summary.files_deleted > 0 ==> !was_in_sync(summary),
        !summary.dry_run && summary.files_transferred == 0 && summary.files_deleted == 0
            ==> was_in_sync(summary),
{
}

/// Both directions have their word.
pub proof fn law_directions_have_their_words()
    ensures
        SyncDirection::Push.name() == "push"@,
        SyncDirection::Pull.name() == "pull"@,
{
}

} // verus!
