//! Transferring one file, and adding up how the files went.
//!
//! A file that the receiver has in an older version goes as a delta; any other goes whole, and so
//! does one whose delta did not work out. Either way it has arrived only when the digests of both
//! sides agree. The first time they do not, the file is sent whole once more.
use vstd::prelude::*;

use crate::delta;
use crate::delta::block_size_for;
use crate::delta::Delta;
use crate::delta::Signature;
use crate::error::DsyncError;
use crate::error::ErrorView;
use crate::hash;
use crate::hash::digest;
use crate::hash::same_digest;
use crate::sync::plan::TransferItem;
use crate::text;

verus! {

/// How the transfer of many files went.
#[derive(Debug)]
pub struct TransferOutcome {
    /// How many files arrived.
    pub transferred: usize,
    /// The paths of the others, with the reasons.
    pub failures: Vec<(String, String)>,
}

impl TransferOutcome {
    /// No file has been tried.
    pub fn new() -> (r: TransferOutcome)
        ensures
            r.transferred == 0,
            r.failures@.len() == 0,
    {
        TransferOutcome { transferred: 0, failures: Vec::new() }
    }

    /// Takes note of how the file `rel` went.
    pub fn record(&mut self, rel: String, result: Result<(), DsyncError>)
        requires
            old(self).transferred < usize::MAX,
        ensures
            match result {
                Ok(_) => {
                    &&& final(self).transferred == old(self).transferred + 1
                    &&& final(self).failures@ == old(self).failures@
                },
                Err(e) => {
                    &&& final(self).transferred == old(self).transferred
                    &&& final(self).failures@.len() == old(self).failures@.len() + 1
                    &&& final(self).failures@.drop_last() == old(self).failures@
                    &&& final(self).failures@.last().0 == rel
                    &&& final(self).failures@.last().1@ == e@.sentence()
                },
            },
    {
        match result {
            Ok(_) => {
                self.transferred = self.transferred + 1;
            },
            Err(e) => {
                let ghost before = self.failures@;
                self.failures.push((rel, e.message()));
                assert(self.failures@.drop_last() =~= before);
            },
        }
    }

    /// Takes note of a file whose worker stopped for the reason `why`.
    pub fn record_panic(&mut self, why: &str)
        ensures
            final(self).transferred == old(self).transferred,
            final(self).failures@.len() == old(self).failures@.len() + 1,
            final(self).failures@.drop_last() == old(self).failures@,
            final(self).failures@.last().0@ == "<unknown>"@,
            final(self).failures@.last().1@ == "task panicked: "@ + why@,
    {
        let ghost before = self.failures@;
        self.failures.push(("<unknown>".to_owned(), text::glue("task panicked: ", why)));
        assert(self.failures@.drop_last() =~= before);
    }
}

/// How many workers to start when `threads` are asked for.
pub fn worker_count(threads: usize) -> (r: usize)
    ensures
        r == if threads == 0 {
            1
        } else {
            threads
        },
{
    if threads == 0 {
        1
    } else {
        threads
    }
}

/// Whether a file goes whole from the start: there is nothing to start from, it is no longer than
/// one block, or it is too long for a delta.
pub open spec fn goes_whole(item: &TransferItem, delta_size_cap: u64) -> bool {
    ||| !item.basis_exists
    ||| item.sender_len <= delta::block_size(item.sender_len as nat)
    ||| item.sender_len > delta_size_cap
}

/// What is to be done next for a file.
pub enum Ask {
    /// Read the file on the sender.
    ReadFile,
    /// Write these bytes on the receiver.
    WriteFile(Vec<u8>),
    /// Make the signature of the receiver's file.
    Signature,
    /// Make the delta from this signature to the sender's file.
    Diff(Signature),
    /// Apply this delta on the receiver.
    Patch(Delta),
    /// Make the digest of the sender's file.
    Hash,
    /// Nothing more: this is how it went.
    Finished(Result<(), DsyncError>),
}

/// What came of it.
pub enum Told {
    Data(Result<Vec<u8>, DsyncError>),
    Digest(Result<[u8; 32], DsyncError>),
    Signed(Result<Option<Signature>, DsyncError>),
    Differs(Result<Delta, DsyncError>),
}

/// How far a file has come.
pub enum Stage {
    /// The sender reads it.
    Reading,
    /// The receiver writes it whole. The sender's digest is this.
    Writing([u8; 32]),
    /// The receiver makes its signature.
    Signing,
    /// The sender makes the delta.
    Differing,
    /// The receiver applies the delta.
    Patching,
    /// The sender makes the digest. The receiver's digest is this.
    Comparing([u8; 32]),
    /// All is done.
    Over,
}

impl Stage {
    /// The kind of answer that is waited for.
    pub open spec fn awaits(self, told: Told) -> bool {
        match self {
            Stage::Reading => told is Data,
            Stage::Writing(_) => told is Digest,
            Stage::Signing => told is Signed,
            Stage::Differing => told is Differs,
            Stage::Patching => told is Digest,
            Stage::Comparing(_) => told is Digest,
            Stage::Over => false,
        }
    }

    /// How many steps can follow while the digests agree.
    pub open spec fn steps_left(self) -> nat {
        match self {
            Stage::Signing => 6,
            Stage::Differing => 5,
            Stage::Patching => 4,
            Stage::Comparing(_) => 3,
            Stage::Reading => 2,
            Stage::Writing(_) => 1,
            Stage::Over => 0,
        }
    }
}

/// Whether an answer shows that the digests of the two sides differ.
pub open spec fn mismatch(stage: Stage, told: Told) -> bool {
    match (stage, told) {
        (Stage::Comparing(received), Told::Digest(Ok(d))) => received@ != d@,
        (Stage::Writing(sent), Told::Digest(Ok(d))) => sent@ != d@,
        _ => false,
    }
}

/// One step of a transfer: what is asked for and how far the file has come after an answer.
pub open spec fn follows(
    stage: Stage,
    retried: bool,
    rel: Seq<char>,
    told: Told,
    next: Stage,
    again: bool,
    ask: Ask,
) -> bool {
    &&& ask is Finished <==> next is Over
    &&& again == (retried || mismatch(stage, told))
    &&& match (stage, told) {
        (Stage::Signing, Told::Signed(Ok(Some(sig)))) => next is Differing && ask == Ask::Diff(sig),
        (Stage::Differing, Told::Differs(Ok(d))) => next is Patching && ask == Ask::Patch(d),
        (Stage::Patching, Told::Digest(Ok(d))) => next == Stage::Comparing(d) && ask is Hash,
        (Stage::Comparing(received), Told::Digest(Ok(d))) => if received@ == d@ {
            ask == Ask::Finished(Ok(()))
        } else {
            next is Reading && ask is ReadFile
        },
        (Stage::Reading, Told::Data(Ok(data))) => {
            &&& ask == Ask::WriteFile(data)
            &&& next matches Stage::Writing(d) && d@ == hash::blake3_of(data@)
        },
        (Stage::Reading, Told::Data(Err(e))) => ask == Ask::Finished(Err(e)),
        (Stage::Writing(sent), Told::Digest(Ok(d))) => if sent@ == d@ {
            ask == Ask::Finished(Ok(()))
        } else if retried {
            ask matches Ask::Finished(Err(e)) && e@ == ErrorView::Integrity(rel)
        } else {
            next is Reading && ask is ReadFile
        },
        (Stage::Writing(_), Told::Digest(Err(e))) => ask == Ask::Finished(Err(e)),
        _ => next is Reading && ask is ReadFile,
    }
}

/// The transfer of one file.
pub struct OneFile {
    rel: String,
    stage: Stage,
    retried: bool,
}

impl OneFile {
    /// The file's path.
    pub closed spec fn rel(&self) -> Seq<char> {
        self.rel@
    }

    pub closed spec fn stage(&self) -> Stage {
        self.stage
    }

    /// Whether the digests did not agree before.
    pub closed spec fn retried(&self) -> bool {
        self.retried
    }

    /// How many steps can follow.
    pub open spec fn steps_left(&self) -> nat {
        self.stage().steps_left() + if self.retried() {
            0nat
        } else {
            2nat
        }
    }

    /// Starts with the file that `item` describes.
    pub fn start(item: &TransferItem, delta_size_cap: u64) -> (r: (OneFile, Ask))
        ensures
            r.0.rel() == item.rel@,
            !r.0.retried(),
            if goes_whole(item, delta_size_cap) {
                r.0.stage() is Reading && r.1 is ReadFile
            } else {
                r.0.stage() is Signing && r.1 is Signature
            },
    {
        let size = block_size_for(item.sender_len) as u64;
        if !item.basis_exists || item.sender_len <= size || item.sender_len > delta_size_cap {
            (OneFile { rel: item.rel.clone(), stage: Stage::Reading, retried: false }, Ask::ReadFile)
        } else {
            (OneFile { rel: item.rel.clone(), stage: Stage::Signing, retried: false }, Ask::Signature)
        }
    }

    /// Takes the answer to what was asked and says what is next. Whatever goes wrong with a delta,
    /// the file is sent whole instead. The file has arrived when the receiver's digest is the
    /// sender's. The first time it is not, the file is sent whole again; the second time is
    /// final, and so is a file that cannot be read or written whole.
    pub fn next(&mut self, told: Told) -> (r: Ask)
        requires
            old(self).stage().awaits(told),
        ensures
            final(self).rel() == old(self).rel(),
            final(self).steps_left() < old(self).steps_left(),
            r is Finished <==> final(self).stage() is Over,
            follows(
                old(self).stage(),
                old(self).retried(),
                old(self).rel(),
                told,
                final(self).stage(),
                final(self).retried(),
                r,
            ),
            final(self).retried() == (old(self).retried() || mismatch(old(self).stage(), told)),
            match (old(self).stage(), told) {
                (Stage::Signing, Told::Signed(Ok(Some(sig)))) => {
                    final(self).stage() is Differing && r == Ask::Diff(sig)
                },
                (Stage::Differing, Told::Differs(Ok(d))) => {
                    final(self).stage() is Patching && r == Ask::Patch(d)
                },
                (Stage::Patching, Told::Digest(Ok(d))) => {
                    final(self).stage() == Stage::Comparing(d) && r is Hash
                },
                (Stage::Comparing(received), Told::Digest(Ok(d))) => if received@ == d@ {
                    r == Ask::Finished(Ok(()))
                } else {
                    final(self).stage() is Reading && r is ReadFile
                },
                (Stage::Reading, Told::Data(Ok(data))) => {
                    &&& r == Ask::WriteFile(data)
                    &&& final(self).stage() matches Stage::Writing(d) && d@ == hash::blake3_of(data@)
                },
                (Stage::Reading, Told::Data(Err(e))) => r == Ask::Finished(Err(e)),
                (Stage::Writing(sent), Told::Digest(Ok(d))) => if sent@ == d@ {
                    r == Ask::Finished(Ok(()))
                } else if old(self).retried() {
                    r matches Ask::Finished(Err(e)) && e@ == ErrorView::Integrity(old(self).rel())
                } else {
                    final(self).stage() is Reading && r is ReadFile
                },
                (Stage::Writing(_), Told::Digest(Err(e))) => r == Ask::Finished(Err(e)),
                _ => final(self).stage() is Reading && r is ReadFile,
            },
    {
        let mut stage = Stage::Over;
        std::mem::swap(&mut stage, &mut self.stage);
        match (stage, told) {
            (Stage::Signing, Told::Signed(Ok(Some(sig)))) => {
                self.stage = Stage::Differing;
                Ask::Diff(sig)
            },
            (Stage::Differing, Told::Differs(Ok(d))) => {
                self.stage = Stage::Patching;
                Ask::Patch(d)
            },
            (Stage::Patching, Told::Digest(Ok(d))) => {
                self.stage = Stage::Comparing(d);
                Ask::Hash
            },
            (Stage::Comparing(received), Told::Digest(Ok(d))) => {
                if same_digest(&received, &d) {
                    Ask::Finished(Ok(()))
                } else {
                    self.stage = Stage::Reading;
                    self.retried = true;
                    Ask::ReadFile
                }
            },
            (Stage::Reading, Told::Data(Ok(data))) => {
                self.stage = Stage::Writing(digest(data.as_slice()));
                Ask::WriteFile(data)
            },
            (Stage::Reading, Told::Data(Err(e))) => Ask::Finished(Err(e)),
            (Stage::Writing(sent), Told::Digest(Ok(d))) => {
                if same_digest(&sent, &d) {
                    Ask::Finished(Ok(()))
                } else if self.retried {
                    Ask::Finished(Err(DsyncError::Integrity(self.rel.clone())))
                } else {
                    self.stage = Stage::Reading;
                    self.retried = true;
                    Ask::ReadFile
                }
            },
            (Stage::Writing(_), Told::Digest(Err(e))) => Ask::Finished(Err(e)),
            _ => {
                self.stage = Stage::Reading;
                Ask::ReadFile
            },
        }
    }
}


/// A file goes whole from the start exactly if the receiver has no version of it, it is no longer
/// than a kibibyte, or it is longer than deltas are made for.
pub proof fn law_deltas_are_for_files_that_gain_by_them(item: &TransferItem, delta_size_cap: u64)
    ensures
        goes_whole(item, delta_size_cap) <==> !item.basis_exists || item.sender_len <= 1024
            || item.sender_len > delta_size_cap,
{
}

/// Two digests that differ, and nothing else, show that a file did not arrive as it was sent.
pub proof fn law_digests_tell_what_arrived(a: [u8; 32], b: [u8; 32], e: DsyncError, stage: Stage)
    ensures
        mismatch(Stage::Comparing(a), Told::Digest(Ok(b))) <==> a@ != b@,
        mismatch(Stage::Writing(a), Told::Digest(Ok(b))) <==> a@ != b@,
        !mismatch(stage, Told::Digest(Err(e))),
        !mismatch(Stage::Patching, Told::Digest(Ok(b))),
        forall|told: Told| !(told is Digest) ==> !#[trigger] mismatch(stage, told),
{
}

/// Every stage but the last waits for one kind of answer.
pub proof fn law_every_stage_waits_for_its_answer(told: Told, d: [u8; 32])
    ensures
        Stage::Reading.awaits(told) <==> told is Data,
        Stage::Signing.awaits(told) <==> told is Signed,
        Stage::Differing.awaits(told) <==> told is Differs,
        Stage::Patching.awaits(told) <==> told is Digest,
        Stage::Comparing(d).awaits(told) <==> told is Digest,
        Stage::Writing(d).awaits(told) <==> told is Digest,
        !Stage::Over.awaits(told),
{
}

/// A file has arrived exactly if the receiver's digest and the sender's were both told and agree.
pub proof fn law_arrived_means_that_digests_agree(
    stage: Stage,
    retried: bool,
    rel: Seq<char>,
    told: Told,
    next: Stage,
    again: bool,
    ask: Ask,
)
    requires
        follows(stage, retried, rel, told, next, again, ask),
        stage.awaits(told),
    ensures
        ask == Ask::Finished(Ok(())) ==> {
            &&& stage is Comparing || stage is Writing
            &&& told matches Told::Digest(Ok(d)) && (stage matches Stage::Comparing(c) ==> c@ == d@)
                && (stage matches Stage::Writing(w) ==> w@ == d@)
        },
        stage matches Stage::Comparing(c) ==> told matches Told::Digest(Ok(d)) ==> c@ == d@ ==> ask
            == Ask::Finished(Ok(())),
        stage matches Stage::Writing(w) ==> told matches Told::Digest(Ok(d)) ==> w@ == d@ ==> ask
            == Ask::Finished(Ok(())),
{
}

/// What is compared is what was received: after a delta the receiver's digest, against the sender's
/// own; for a whole file the digest of the very bytes that are written.
pub proof fn law_digest_is_of_what_was_sent(
    stage: Stage,
    retried: bool,
    rel: Seq<char>,
    told: Told,
    next: Stage,
    again: bool,
    ask: Ask,
)
    requires
        follows(stage, retried, rel, told, next, again, ask),
        stage.awaits(told),
    ensures
        ask matches Ask::WriteFile(data) ==> stage is Reading && told == Told::Data(Ok(data)) && (
        next matches Stage::Writing(d) && d@ == hash::blake3_of(data@)),
        ask is Hash ==> stage is Patching && (told matches Told::Digest(Ok(d)) && next
            == Stage::Comparing(d)),
        ask matches Ask::Diff(sig) ==> told == Told::Signed(Ok(Some(sig))),
        ask matches Ask::Patch(delta) ==> told == Told::Differs(Ok(delta)),
{
}

/// Whatever goes wrong with a delta, the file is sent whole instead.
pub proof fn law_trouble_with_a_delta_is_no_failure(
    stage: Stage,
    retried: bool,
    rel: Seq<char>,
    told: Told,
    next: Stage,
    again: bool,
    ask: Ask,
)
    requires
        follows(stage, retried, rel, told, next, again, ask),
        stage.awaits(told),
        stage is Signing || stage is Differing || stage is Patching || stage is Comparing,
    ensures
        !(ask matches Ask::Finished(Err(_))),
        told matches Told::Signed(Err(_)) ==> ask is ReadFile,
        told matches Told::Signed(Ok(None)) ==> ask is ReadFile,
        told matches Told::Differs(Err(_)) ==> ask is ReadFile,
        told matches Told::Digest(Err(_)) ==> ask is ReadFile,
{
}

/// A file is sent whole once more when the digests do not agree for the first time; the second time
/// it has failed, and the failure names it. Otherwise a file fails only if it cannot be read or
/// written, with the reason that was told.
pub proof fn law_file_is_tried_twice_at_most(
    stage: Stage,
    retried: bool,
    rel: Seq<char>,
    told: Told,
    next: Stage,
    again: bool,
    ask: Ask,
)
    requires
        follows(stage, retried, rel, told, next, again, ask),
        stage.awaits(told),
    ensures
        mismatch(stage, told) && !retried ==> ask is ReadFile && next is Reading,
        mismatch(stage, told) ==> again,
        retried ==> again,
        stage is Writing && mismatch(stage, told) && retried ==> (ask matches Ask::Finished(Err(e))
            && e@ == ErrorView::Integrity(rel)),
        ask matches Ask::Finished(Err(e)) ==> told == Told::Data(Err(e)) || told == Told::Digest(
            Err(e),
        ) || (mismatch(stage, told) && retried && stage is Writing),
{
}

} // verus!
