//! The agent: it serves one tree to a client, message by message.
use vstd::prelude::*;

use crate::delta::Delta;
use crate::delta::Signature;
use crate::error::DsyncError;
use crate::error::ErrorView;
use crate::ignore_rules;
use crate::ignore_rules::IgnoreSet;
use crate::text;
use crate::text::glue;
use crate::text::show_u64;
use crate::transport::protocol::Request;
use crate::transport::protocol::Response;
use crate::transport::protocol::PROTOCOL_VERSION;
use crate::transport::FileEntry;

verus! {

/// An agent at work: how its replies are compressed.
pub struct Agent {
    compress: bool,
    level: i32,
}

/// What the agent does about a request.
#[derive(Debug)]
pub enum Decision {
    /// Send this reply.
    Reply(Response),
    /// Do what the request asks for on the tree, then reply.
    Execute(Request),
    /// End.
    Stop,
}

/// What the agent says to a client with another version.
pub open spec fn version_complaint(version: u32) -> Seq<char> {
    "protocol version mismatch (remote "@ + text::decimal(PROTOCOL_VERSION as nat) + ", client "@
        + text::decimal(version as nat) + "); upgrade dsync on both ends"@
}

/// Whether the agent answers a client with this version by `reply`.
pub open spec fn greets(version: u32, reply: Response) -> bool {
    if version == PROTOCOL_VERSION {
        reply == (Response::Hello { version: PROTOCOL_VERSION })
    } else {
        reply matches Response::Error(m) && m@ == version_complaint(version)
    }
}

/// Whether an agent decides so about a request, `after` being how its replies are compressed then and
/// `before` how they were.
pub open spec fn decides(
    req: Request,
    decision: Decision,
    before: (bool, i32),
    after: (bool, i32),
) -> bool {
    match req {
        Request::Hello { version, compress, level } => {
            &&& after == (compress, level)
            &&& decision matches Decision::Reply(reply) && greets(version, reply)
        },
        Request::Shutdown => decision is Stop && after == before,
        _ => decision == Decision::Execute(req) && after == before,
    }
}

/// Only the first message changes how replies are compressed, to what it asks for; only the last one
/// ends the agent; and every other request is carried out as it came.
pub proof fn law_requests_are_carried_out_as_they_came(
    req: Request,
    decision: Decision,
    before: (bool, i32),
    after: (bool, i32),
)
    requires
        decides(req, decision, before, after),
    ensures
        req matches Request::Hello { version, compress, level } ==> after.0 == compress && after.1
            == level,
        !(req is Hello) ==> after == before,
        decision is Stop <==> req is Shutdown,
        decision is Reply <==> req is Hello,
        decision matches Decision::Execute(r) ==> r == req,
{
}

/// A client goes on with an agent exactly if it has the agent's version, and otherwise learns that
/// the versions differ.
pub proof fn law_versions_must_agree(version: u32, reply: Response)
    requires
        greets(version, reply),
    ensures
        reply.handshake_outcome() == if version == PROTOCOL_VERSION {
            Ok::<(), ErrorView>(())
        } else {
            Err::<(), ErrorView>(ErrorView::Protocol(version_complaint(version)))
        },
{
}

impl Agent {
    /// Whether replies are compressed.
    pub closed spec fn compresses(&self) -> bool {
        self.compress
    }

    /// At what level replies are compressed.
    pub closed spec fn compression_level(&self) -> i32 {
        self.level
    }

    /// An agent that has not heard from a client yet.
    pub fn new() -> (r: Agent)
        ensures
            r.compresses(),
            r.compression_level() == 3,
    {
        Agent { compress: true, level: 3 }
    }

    /// Whether replies are compressed, and at what level.
    pub fn compression(&self) -> (r: (bool, i32))
        ensures
            r.0 == self.compresses(),
            r.1 == self.compression_level(),
    {
        (self.compress, self.level)
    }

    /// What to do about a request. The first message sets how replies are compressed, and is
    /// answered by the agent's version, or by an error if the client has another one.
    pub fn on_request(&mut self, req: Request) -> (r: Decision)
        ensures
            decides(
                req,
                r,
                (old(self).compresses(), old(self).compression_level()),
                (final(self).compresses(), final(self).compression_level()),
            ),
            match req {
                Request::Hello { version, compress, level } => {
                    &&& final(self).compresses() == compress
                    &&& final(self).compression_level() == level
                    &&& r matches Decision::Reply(reply) && greets(version, reply)
                },
                Request::Shutdown => r is Stop && *final(self) == *old(self),
                _ => r == Decision::Execute(req) && *final(self) == *old(self),
            },
    {
        match req {
            Request::Hello { version, compress, level } => {
                self.compress = compress;
                self.level = level;
                if version == PROTOCOL_VERSION {
                    return Decision::Reply(Response::Hello { version: PROTOCOL_VERSION });
                }
                let mut m = glue(
                    "protocol version mismatch (remote ",
                    show_u64(PROTOCOL_VERSION as u64).as_str(),
                );
                m.append(", client ");
                m.append(show_u64(version as u64).as_str());
                m.append("); upgrade dsync on both ends");
                Decision::Reply(Response::Error(m))
            },
            Request::Shutdown => Decision::Stop,
            other => Decision::Execute(other),
        }
    }
}

/// The error for a message that has no place between requests.
pub fn unexpected_control() -> (r: DsyncError)
    ensures
        r@ == ErrorView::Protocol("unexpected control frame"@),
{
    DsyncError::Protocol("unexpected control frame".to_owned())
}

/// What a request asks for.
#[derive(Clone, Copy, Debug, PartialEq, Eq, Structural)]
pub enum Asked {
    /// The entries of the tree.
    Listing,
    /// The signature of a file, if it is there.
    Signature,
    /// A delta.
    Delta,
    /// A file to be written, whole or by a delta.
    Writing,
    /// The content of a file.
    Content,
    /// The digest of a file.
    Digest,
    /// A directory to be made, or something to be removed.
    Change,
}

/// What a request asks for; nothing, if it has no place between requests.
pub open spec fn asked_for(req: Request) -> Option<Asked> {
    match req {
        Request::Scan { .. } => Some(Asked::Listing),
        Request::Signature { .. } => Some(Asked::Signature),
        Request::Diff { .. } => Some(Asked::Delta),
        Request::Patch { .. } => Some(Asked::Writing),
        Request::WriteFile { .. } => Some(Asked::Writing),
        Request::ReadFile { .. } => Some(Asked::Content),
        Request::Hash { .. } => Some(Asked::Digest),
        Request::Mkdir { .. } => Some(Asked::Change),
        Request::Remove { .. } => Some(Asked::Change),
        Request::Hello { .. } => None,
        Request::Shutdown => None,
    }
}

/// What a request asks for.
pub fn asked(req: &Request) -> (r: Result<Asked, DsyncError>)
    ensures
        match asked_for(*req) {
            Some(a) => r == Ok::<Asked, DsyncError>(a),
            None => r matches Err(e) && e@ == ErrorView::Protocol("unexpected control frame"@),
        },
{
    match req {
        Request::Scan { .. } => Ok(Asked::Listing),
        Request::Signature { .. } => Ok(Asked::Signature),
        Request::Diff { .. } => Ok(Asked::Delta),
        Request::Patch { .. } | Request::WriteFile { .. } => Ok(Asked::Writing),
        Request::ReadFile { .. } => Ok(Asked::Content),
        Request::Hash { .. } => Ok(Asked::Digest),
        Request::Mkdir { .. } | Request::Remove { .. } => Ok(Asked::Change),
        Request::Hello { .. } | Request::Shutdown => Err(unexpected_control()),
    }
}

/// The rules for a listing: those of the client's patterns, or none if the client sends none.
pub fn rules_for(root: &str, ignore_patterns: Option<&str>) -> (r: Result<
    Option<IgnoreSet>,
    DsyncError,
>)
    ensures
        match ignore_patterns {
            None => r matches Ok(None),
            Some(patterns) => {
                let rules = ignore_rules::rules_of(patterns@);
                match r {
                    Ok(set) => {
                        &&& ignore_rules::rules_are_valid(rules)
                        &&& set matches Some(s) && s.root() == root@ && s.rules() == rules
                    },
                    Err(e) => {
                        &&& !ignore_rules::rules_are_valid(rules)
                        &&& e@ == ErrorView::Config(ignore_rules::rules_complaint(rules))
                    },
                }
            },
        },
{
    match ignore_patterns {
        None => Ok(None),
        Some(patterns) => match IgnoreSet::from_patterns(root, patterns) {
            Ok(set) => Ok(Some(set)),
            Err(e) => Err(e),
        },
    }
}

/// What came of a request on the tree.
#[derive(Debug)]
pub enum Produced {
    Entries(Vec<FileEntry>),
    Signature(Option<Signature>),
    Delta(Delta),
    Digest([u8; 32]),
    Content(Vec<u8>),
    Nothing,
}

/// Whether what was produced is of the kind that was asked for.
pub open spec fn fits(asked: Asked, produced: Produced) -> bool {
    match asked {
        Asked::Listing => produced is Entries,
        Asked::Signature => produced is Signature,
        Asked::Delta => produced is Delta,
        Asked::Writing => produced is Digest,
        Asked::Content => produced is Content,
        Asked::Digest => produced is Digest,
        Asked::Change => produced is Nothing,
    }
}

/// Whether `reply` hands the client what was produced, under the name that goes with what was
/// asked for.
pub open spec fn answers(asked: Asked, produced: Produced, reply: Response) -> bool {
    match (asked, produced) {
        (Asked::Listing, Produced::Entries(v)) => reply == Response::Scanned(v),
        (Asked::Signature, Produced::Signature(s)) => reply == Response::Sig(s),
        (Asked::Delta, Produced::Delta(d)) => reply == Response::Diffed(d),
        (Asked::Writing, Produced::Digest(h)) => reply == Response::Patched(h),
        (Asked::Content, Produced::Content(d)) => reply == Response::FileData(d),
        (Asked::Digest, Produced::Digest(h)) => reply == Response::Hashed(h),
        (Asked::Change, Produced::Nothing) => reply is Done,
        _ => false,
    }
}

/// The reply that tells how a request went.
pub fn respond(result: Result<(Asked, Produced), DsyncError>) -> (r: Response)
    requires
        result matches Ok(done) ==> fits(done.0, done.1),
    ensures
        match result {
            Ok(done) => answers(done.0, done.1, r),
            Err(e) => r matches Response::Error(m) && m@ == e@.sentence(),
        },
{
    match result {
        Ok((asked, produced)) => match produced {
            Produced::Entries(v) => Response::Scanned(v),
            Produced::Signature(s) => Response::Sig(s),
            Produced::Delta(d) => Response::Diffed(d),
            Produced::Content(d) => Response::FileData(d),
            Produced::Nothing => Response::Done,
            Produced::Digest(h) => match asked {
                Asked::Digest => Response::Hashed(h),
                _ => Response::Patched(h),
            },
        },
        Err(e) => Response::Error(e.message()),
    }
}


/// Every request but the two that open and close a connection asks for its kind of thing.
pub proof fn law_requests_ask_for_their_kind(req: Request)
    ensures
        req is Scan ==> asked_for(req) == Some(Asked::Listing),
        req is Signature ==> asked_for(req) == Some(Asked::Signature),
        req is Diff ==> asked_for(req) == Some(Asked::Delta),
        req is Patch || req is WriteFile ==> asked_for(req) == Some(Asked::Writing),
        req is ReadFile ==> asked_for(req) == Some(Asked::Content),
        req is Hash ==> asked_for(req) == Some(Asked::Digest),
        req is Mkdir || req is Remove ==> asked_for(req) == Some(Asked::Change),
        req is Hello || req is Shutdown ==> asked_for(req) is None,
{
}

/// The client finds in the reply what was produced, as it was, in the reply that belongs to what was
/// asked for: a digest that was asked for is told from one of what was written.
pub proof fn law_reply_holds_what_was_produced(asked: Asked, produced: Produced, reply: Response)
    requires
        answers(asked, produced, reply),
    ensures
        asked == Asked::Listing ==> produced is Entries && reply == Response::Scanned(
            produced->Entries_0,
        ),
        asked == Asked::Signature ==> produced is Signature && reply == Response::Sig(
            produced->Signature_0,
        ),
        asked == Asked::Delta ==> produced is Delta && reply == Response::Diffed(
            produced->Delta_0,
        ),
        asked == Asked::Writing ==> produced is Digest && reply == Response::Patched(
            produced->Digest_0,
        ),
        asked == Asked::Content ==> produced is Content && reply == Response::FileData(
            produced->Content_0,
        ),
        asked == Asked::Digest ==> produced is Digest && reply == Response::Hashed(
            produced->Digest_0,
        ),
        asked == Asked::Change ==> produced is Nothing && reply is Done,
        !(reply is Error),
{
}

/// The agent's version is 1: a client with that one is greeted with it, and any other learns both
/// numbers.
pub proof fn law_other_versions_are_told_both_numbers(version: u32, reply: Response)
    requires
        greets(version, reply),
    ensures
        version == 1 ==> reply == (Response::Hello { version: 1 }),
        version != 1 ==> reply is Error && (reply->Error_0)@ == "protocol version mismatch (remote "@
            + text::decimal(1) + ", client "@ + text::decimal(version as nat)
            + "); upgrade dsync on both ends"@,
{
}

} // verus!
