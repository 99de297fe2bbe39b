//! The messages between a client and the agent that serves the other tree.
//!
//! A message travels as a frame: a byte that says whether the body is compressed, the length of
//! the body in four bytes, the lowest first, and the body. What a body says is encoded and decoded
//! by the program around the library.
use vstd::prelude::*;

use crate::delta::Delta;
use crate::delta::Signature;
use crate::error::DsyncError;
use crate::error::ErrorView;
use crate::text;
use crate::text::glue;
use crate::text::show_u64;
use crate::transport::FileEntry;

verus! {

/// The version of the protocol. Both sides must have the same.
pub const PROTOCOL_VERSION: u32 = 1;

/// Payloads up to this length are not worth compressing.
pub const COMPRESS_THRESHOLD: usize = 256;

/// Marks a frame whose body is the payload.
pub const FLAG_RAW: u8 = 0;

/// Marks a frame whose body is the compressed payload.
pub const FLAG_ZSTD: u8 = 1;

/// What a client asks of the agent. Paths are relative to the agent's root.
#[derive(Debug)]
pub enum Request {
    /// The first message: the client's version, and how replies are to be compressed.
    Hello { version: u32, compress: bool, level: i32 },
    /// List the tree, without what the patterns exclude.
    Scan { ignore_patterns: Option<String> },
    Signature { rel: String },
    Diff { rel: String, sig: Signature },
    Patch { rel: String, delta: Delta, mtime: i64, mode: u32 },
    WriteFile { rel: String, data: Vec<u8>, mtime: i64, mode: u32 },
    ReadFile { rel: String },
    Hash { rel: String },
    Mkdir { rel: String, mode: u32 },
    Remove { rel: String },
    Shutdown,
}

/// What the agent answers.
#[derive(Debug)]
pub enum Response {
    Hello { version: u32 },
    Scanned(Vec<FileEntry>),
    Sig(Option<Signature>),
    Diffed(Delta),
    Patched([u8; 32]),
    FileData(Vec<u8>),
    Hashed([u8; 32]),
    /// What was asked for is done.
    Done,
    Error(String),
}

/// `payload` compressed by zstd at `level`, or in words why it cannot be.
pub uninterp spec fn zstd_packed(payload: Seq<u8>, level: i32) -> Result<Seq<u8>, Seq<char>>;

/// What zstd makes of compressed bytes, or in words why they are none.
pub uninterp spec fn zstd_unpacked(body: Seq<u8>) -> Result<Seq<u8>, Seq<char>>;

/// Whether compressed bytes stand for `payload`.
pub open spec fn unpacks_to(body: Seq<u8>, payload: Seq<u8>) -> bool {
    zstd_unpacked(body) == Ok::<Seq<u8>, Seq<char>>(payload)
}

/// `zstd::encode_all`: compresses `payload`, or gives the `Display` text of its error. What it
/// returns decompresses to `payload`. Running out of memory is not considered.
#[verifier::external_body]
fn zstd_encode(payload: &[u8], level: i32) -> (r: Result<Vec<u8>, String>)
    ensures
        match r {
            Ok(body) => zstd_packed(payload@, level) matches Ok(packed) && body@ == packed
                && unpacks_to(body@, payload@),
            Err(t) => zstd_packed(payload@, level) matches Err(words) && t@ == words,
        },
{
    zstd::encode_all(payload, level).map_err(|e| e.to_string())
}

/// `zstd::decode_all`: decompresses `body`, or gives the `Display` text of its error. It fails on
/// bytes that are not compressed by zstd, and only on those; running out of memory is not
/// considered.
#[verifier::external_body]
fn zstd_decode(body: &[u8]) -> (r: Result<Vec<u8>, String>)
    ensures
        match r {
            Ok(payload) => unpacks_to(body@, payload@),
            Err(t) => zstd_unpacked(body@) matches Err(words) && t@ == words,
        },
{
    zstd::decode_all(body).map_err(|e| e.to_string())
}

/// The four bytes of `n`, the lowest first.
pub open spec fn le32(n: u32) -> Seq<u8> {
    seq![
        (n % 0x100) as u8,
        (n / 0x100 % 0x100) as u8,
        (n / 0x1_0000 % 0x100) as u8,
        (n / 0x100_0000) as u8,
    ]
}

/// A frame.
pub open spec fn framed(flag: u8, body: Seq<u8>) -> Seq<u8> {
    seq![flag] + le32((body.len() % 0x1_0000_0000) as u32) + body
}

/// The number that four bytes write, the lowest first.
pub open spec fn le_value(b: Seq<u8>) -> nat {
    (b[0] + b[1] * 0x100 + b[2] * 0x1_0000 + b[3] * 0x100_0000) as nat
}

/// The length that a frame's header names.
pub open spec fn length_in(frame: Seq<u8>) -> nat {
    le_value(frame.subrange(1, 5))
}

/// What a body stands for under its flag, or why it stands for nothing.
pub open spec fn opened(flag: u8, body: Seq<u8>) -> Result<Seq<u8>, ErrorView> {
    if flag == FLAG_RAW {
        Ok(body)
    } else if flag == FLAG_ZSTD {
        match zstd_unpacked(body) {
            Ok(payload) => Ok(payload),
            Err(words) => Err(ErrorView::Protocol("zstd decode: "@ + words)),
        }
    } else {
        Err(ErrorView::Protocol("unknown frame flag "@ + text::decimal(flag as nat)))
    }
}

/// What the receiver of exactly one frame reads from it; none if the frame is not whole or its
/// body stands for nothing.
pub open spec fn read_back(frame: Seq<u8>) -> Option<Seq<u8>> {
    if frame.len() >= 5 && length_in(frame) == frame.len() - 5 {
        match opened(frame[0], frame.skip(5)) {
            Ok(payload) => Some(payload),
            Err(_) => None,
        }
    } else {
        None
    }
}

/// Whether a payload is worth compressing.
pub open spec fn is_compressed(len: nat, compress: bool) -> bool {
    compress && len > COMPRESS_THRESHOLD
}

/// The body that a payload travels as, or why it cannot be compressed.
pub open spec fn body_of(payload: Seq<u8>, compress: bool, level: i32) -> Result<
    Seq<u8>,
    ErrorView,
> {
    if is_compressed(payload.len(), compress) {
        match zstd_packed(payload, level) {
            Ok(body) => Ok(body),
            Err(words) => Err(ErrorView::Protocol("zstd encode: "@ + words)),
        }
    } else {
        Ok(payload)
    }
}

/// The flag that a payload travels under.
pub open spec fn flag_of(payload: Seq<u8>, compress: bool) -> u8 {
    if is_compressed(payload.len(), compress) {
        FLAG_ZSTD
    } else {
        FLAG_RAW
    }
}

/// The receiver finds in a frame the flag and the body that the sender put there, if the body's
/// length fits into four bytes.
pub proof fn law_frame_holds_its_body(flag: u8, body: Seq<u8>)
    requires
        body.len() <= u32::MAX,
    ensures
        framed(flag, body).len() == body.len() + 5,
        framed(flag, body)[0] == flag,
        length_in(framed(flag, body)) == body.len(),
        framed(flag, body).skip(5) == body,
        read_back(framed(flag, body)) == match opened(flag, body) {
            Ok(payload) => Some(payload),
            Err(_) => None,
        },
{
    let n = body.len() as u32;
    assert((body.len() % 0x1_0000_0000) as u32 == n);
    let f = framed(flag, body);
    assert(f[1] == (n % 0x100) as u8);
    assert(f[2] == (n / 0x100 % 0x100) as u8);
    assert(f[3] == (n / 0x1_0000 % 0x100) as u8);
    assert(f[4] == (n / 0x100_0000) as u8);
    assert(f.skip(5) =~= body);
}

/// Frames can follow each other: the receiver finds in a stream the first frame's flag and body,
/// and after them the rest.
pub proof fn law_frames_can_follow_each_other(flag: u8, body: Seq<u8>, rest: Seq<u8>)
    requires
        body.len() <= u32::MAX,
    ensures
        ({
            let stream = framed(flag, body) + rest;
            let end = 5 + body.len() as int;
            &&& stream[0] == flag
            &&& length_in(stream) == body.len()
            &&& stream.subrange(5, end) == body
            &&& stream.skip(end) == rest
        }),
{
    law_frame_holds_its_body(flag, body);
    let f = framed(flag, body);
    let stream = f + rest;
    assert(stream.subrange(1, 5) =~= f.subrange(1, 5));
    assert(stream.subrange(5, 5 + body.len() as int) =~= f.skip(5));
    assert(stream.skip(5 + body.len() as int) =~= rest);
}

/// The first bytes of a frame: the flag and the length of the body.
fn header(flag: u8, len: usize) -> (r: Vec<u8>)
    ensures
        r@ == seq![flag] + le32((len as nat % 0x1_0000_0000) as u32),
{
    let n: u32 = ((len as u64) % 0x1_0000_0000) as u32;
    let mut out: Vec<u8> = Vec::new();
    out.push(flag);
    out.push((n % 0x100) as u8);
    out.push((n / 0x100 % 0x100) as u8);
    out.push((n / 0x1_0000 % 0x100) as u8);
    out.push((n / 0x100_0000) as u8);
    assert(out@ =~= seq![flag] + le32(n));
    out
}

/// Frames an encoded message, compressed at `level` if that is asked for and worth it. It fails
/// only where a payload is to be compressed and cannot be. What the receiver reads from the frame
/// is the payload again.
pub fn frame(payload: Vec<u8>, compress: bool, level: i32) -> (r: Result<Vec<u8>, DsyncError>)
    ensures
        match (body_of(payload@, compress, level), r) {
            (Ok(body), Ok(f)) => {
                &&& f@ == framed(flag_of(payload@, compress), body)
                &&& body.len() <= u32::MAX ==> read_back(f@) == Some(payload@)
            },
            (Err(why), Err(e)) => e@ == why,
            _ => false,
        },
{
    let ghost whole = payload@;
    let mut flag: u8 = FLAG_RAW;
    let mut body = payload;
    if compress && body.len() > COMPRESS_THRESHOLD {
        match zstd_encode(body.as_slice(), level) {
            Ok(packed) => {
                flag = FLAG_ZSTD;
                body = packed;
            },
            Err(reason) => {
                return Err(DsyncError::Protocol(glue("zstd encode: ", reason.as_str())));
            },
        }
    }
    let ghost sent = body@;
    let mut out = header(flag, body.len());
    out.append(&mut body);
    proof {
        assert(out@ =~= framed(flag, sent));
        if sent.len() <= u32::MAX {
            law_frame_holds_its_body(flag, sent);
        }
    }
    Ok(out)
}

/// The length of the body after these four bytes.
pub fn body_len(len_bytes: &[u8; 4]) -> (r: u32)
    ensures
        r == le_value(len_bytes@),
{
    len_bytes[0] as u32 + (len_bytes[1] as u32) * 0x100 + (len_bytes[2] as u32) * 0x1_0000 + (
    len_bytes[3] as u32) * 0x100_0000
}

/// Whether `r` is what a frame with this flag and body comes to: its payload, or why it has none.
pub open spec fn is_payload_of(r: Result<Vec<u8>, DsyncError>, flag: u8, body: Seq<u8>) -> bool {
    match r {
        Ok(payload) => opened(flag, body) == Ok::<Seq<u8>, ErrorView>(payload@),
        Err(e) => opened(flag, body) == Err::<Seq<u8>, ErrorView>(e@),
    }
}

/// The payload of a frame with this flag and body.
pub fn unframe(flag: u8, body: Vec<u8>) -> (r: Result<Vec<u8>, DsyncError>)
    ensures
        is_payload_of(r, flag, body@),
{
    if flag == FLAG_RAW {
        Ok(body)
    } else if flag == FLAG_ZSTD {
        match zstd_decode(body.as_slice()) {
            Ok(payload) => Ok(payload),
            Err(reason) => Err(DsyncError::Protocol(glue("zstd decode: ", reason.as_str()))),
        }
    } else {
        let n = show_u64(flag as u64);
        Err(DsyncError::Protocol(glue("unknown frame flag ", n.as_str())))
    }
}

/// How far the reading of a frame from a stream has come: what is to be read next.
#[derive(Debug)]
pub enum FrameReader {
    Flag,
    Length { flag: u8 },
    Body { flag: u8, len: u32 },
}

/// What more bytes of a stream come to.
pub enum Progress {
    /// The frame goes on.
    More(FrameReader),
    /// The frame is whole.
    Whole(u8, Seq<u8>),
}

impl FrameReader {
    /// How many bytes are to be read next.
    pub open spec fn needs(self) -> nat {
        match self {
            FrameReader::Flag => 1,
            FrameReader::Length { .. } => 4,
            FrameReader::Body { len, .. } => len as nat,
        }
    }

    /// What the next bytes come to.
    pub open spec fn given(self, bytes: Seq<u8>) -> Progress {
        match self {
            FrameReader::Flag => Progress::More(FrameReader::Length { flag: bytes[0] }),
            FrameReader::Length { flag } => Progress::More(
                FrameReader::Body { flag, len: le_value(bytes) as u32 },
            ),
            FrameReader::Body { flag, .. } => Progress::Whole(flag, bytes),
        }
    }

    /// The frame that is read from a stream, and how many of its bytes that takes; none if the
    /// stream ends before the frame does.
    pub open spec fn takes_from(self, stream: Seq<u8>) -> Option<(u8, Seq<u8>, nat)>
        decreases
            match self {
                FrameReader::Flag => 2nat,
                FrameReader::Length { .. } => 1nat,
                FrameReader::Body { .. } => 0nat,
            },
    {
        let n = self.needs();
        if stream.len() < n {
            None
        } else {
            match self.given(stream.take(n as int)) {
                Progress::More(next) => match next.takes_from(stream.skip(n as int)) {
                    Some((flag, body, more)) => Some((flag, body, n + more)),
                    None => None,
                },
                Progress::Whole(flag, body) => Some((flag, body, n)),
            }
        }
    }

    /// What is said when the stream ends or fails instead.
    pub open spec fn complaint(self) -> Seq<char> {
        match self {
            FrameReader::Flag => "read flag: "@,
            FrameReader::Length { .. } => "read len: "@,
            FrameReader::Body { .. } => "read body: "@,
        }
    }

    /// A reader in front of a frame.
    pub fn new() -> (r: FrameReader)
        ensures
            r == FrameReader::Flag,
    {
        FrameReader::Flag
    }

    /// How many bytes are to be read next.
    pub fn wants(&self) -> (r: usize)
        ensures
            r == self.needs(),
    {
        match self {
            FrameReader::Flag => 1,
            FrameReader::Length { .. } => 4,
            FrameReader::Body { len, .. } => *len as usize,
        }
    }

    /// Takes the bytes that were read. When the frame is whole, its payload comes back, and the
    /// reader is in front of the next one.
    pub fn took(&mut self, bytes: Vec<u8>) -> (r: Option<Result<Vec<u8>, DsyncError>>)
        requires
            bytes@.len() == old(self).needs(),
        ensures
            match old(self).given(bytes@) {
                Progress::More(next) => r is None && *final(self) == next,
                Progress::Whole(flag, body) => {
                    &&& *final(self) == FrameReader::Flag
                    &&& r matches Some(payload)
                    &&& is_payload_of(payload, flag, body)
                },
            },
    {
        match self {
            FrameReader::Flag => {
                let flag: u8 = bytes[0];
                *self = FrameReader::Length { flag };
                None
            },
            FrameReader::Length { flag } => {
                let flag: u8 = *flag;
                let len = body_len(&[bytes[0], bytes[1], bytes[2], bytes[3]]);
                *self = FrameReader::Body { flag, len };
                None
            },
            FrameReader::Body { flag, .. } => {
                let flag: u8 = *flag;
                *self = FrameReader::Flag;
                Some(unframe(flag, bytes))
            },
        }
    }

    /// What it comes to that the bytes could not be read: the stream ended before the frame did, or
    /// failed.
    pub fn ended(&self, reason: &str) -> (r: DsyncError)
        ensures
            r@ == ErrorView::Protocol(self.complaint() + reason@),
    {
        let part = match self {
            FrameReader::Flag => "read flag: ",
            FrameReader::Length { .. } => "read len: ",
            FrameReader::Body { .. } => "read body: ",
        };
        DsyncError::Protocol(glue(part, reason))
    }
}

/// What is read from a stream is its first frame, if the stream does not end before that.
proof fn lemma_takes_first_frame(stream: Seq<u8>)
    ensures
        FrameReader::Flag.takes_from(stream) == if stream.len() >= 5 && stream.len() >= 5
            + length_in(stream) {
            Some(
                (
                    stream[0],
                    stream.subrange(5, 5 + length_in(stream) as int),
                    (5 + length_in(stream)) as nat,
                ),
            )
        } else {
            None
        },
{
    reveal_with_fuel(FrameReader::takes_from, 3);
    if stream.len() >= 1 {
        let rest = stream.skip(1);
        let flag = stream.take(1)[0];
        assert(flag == stream[0]);
        if rest.len() >= 4 {
            let bytes = rest.take(4);
            assert(bytes =~= stream.subrange(1, 5));
            assert(le_value(bytes) <= u32::MAX);
            let n = le_value(bytes) as int;
            let tail = rest.skip(4);
            assert(tail =~= stream.skip(5));
            if tail.len() >= n {
                assert(tail.take(n) =~= stream.subrange(5, 5 + n));
            }
        }
    }
}

/// A frame is read back from a stream that starts with it, flag and body, and exactly its bytes
/// are taken from the stream.
pub proof fn law_frame_is_taken_whole(flag: u8, body: Seq<u8>, rest: Seq<u8>)
    requires
        body.len() <= u32::MAX,
    ensures
        FrameReader::Flag.takes_from(framed(flag, body) + rest) == Some(
            (flag, body, framed(flag, body).len()),
        ),
{
    law_frame_holds_its_body(flag, body);
    law_frames_can_follow_each_other(flag, body, rest);
    lemma_takes_first_frame(framed(flag, body) + rest);
}

/// A stream that ends before a frame does gives no message: the reader is left wanting bytes, which
/// it answers by an error.
pub proof fn law_frame_cut_short_is_no_message(flag: u8, body: Seq<u8>, cut: int)
    requires
        body.len() <= u32::MAX,
        0 <= cut < framed(flag, body).len(),
    ensures
        FrameReader::Flag.takes_from(framed(flag, body).take(cut)) is None,
{
    law_frame_holds_its_body(flag, body);
    let f = framed(flag, body);
    let stream = f.take(cut);
    lemma_takes_first_frame(stream);
    if stream.len() >= 5 {
        assert(stream.subrange(1, 5) =~= f.subrange(1, 5));
    }
}

/// What a reply of the wrong kind comes to: the agent's own complaint, or that it is unexpected.
pub open spec fn complaint(resp: Response) -> ErrorView {
    match resp {
        Response::Error(e) => ErrorView::Protocol(e@),
        _ => ErrorView::Protocol("unexpected response variant"@),
    }
}

/// What a reply of the wrong kind comes to.
pub fn protocol_error(resp: Response) -> (r: DsyncError)
    ensures
        r@ == complaint(resp),
{
    match resp {
        Response::Error(e) => DsyncError::Protocol(e),
        _ => DsyncError::Protocol("unexpected response variant".to_owned()),
    }
}

impl Response {
    /// The entries of a listing.
    pub fn into_scanned(self) -> (r: Result<Vec<FileEntry>, DsyncError>)
        ensures
            match self {
                Response::Scanned(v) => r == Ok::<Vec<FileEntry>, DsyncError>(v),
                _ => r matches Err(e) && e@ == complaint(self),
            },
    {
        match self {
            Response::Scanned(v) => Ok(v),
            other => Err(protocol_error(other)),
        }
    }

    /// The signature of a file, if the file is there.
    pub fn into_sig(self) -> (r: Result<Option<Signature>, DsyncError>)
        ensures
            match self {
                Response::Sig(s) => r == Ok::<Option<Signature>, DsyncError>(s),
                _ => r matches Err(e) && e@ == complaint(self),
            },
    {
        match self {
            Response::Sig(s) => Ok(s),
            other => Err(protocol_error(other)),
        }
    }

    /// A delta.
    pub fn into_diffed(self) -> (r: Result<Delta, DsyncError>)
        ensures
            match self {
                Response::Diffed(d) => r == Ok::<Delta, DsyncError>(d),
                _ => r matches Err(e) && e@ == complaint(self),
            },
    {
        match self {
            Response::Diffed(d) => Ok(d),
            other => Err(protocol_error(other)),
        }
    }

    /// The digest of a file that was written.
    pub fn into_patched(self) -> (r: Result<[u8; 32], DsyncError>)
        ensures
            match self {
                Response::Patched(h) => r == Ok::<[u8; 32], DsyncError>(h),
                _ => r matches Err(e) && e@ == complaint(self),
            },
    {
        match self {
            Response::Patched(h) => Ok(h),
            other => Err(protocol_error(other)),
        }
    }

    /// The content of a file.
    pub fn into_file_data(self) -> (r: Result<Vec<u8>, DsyncError>)
        ensures
            match self {
                Response::FileData(d) => r == Ok::<Vec<u8>, DsyncError>(d),
                _ => r matches Err(e) && e@ == complaint(self),
            },
    {
        match self {
            Response::FileData(d) => Ok(d),
            other => Err(protocol_error(other)),
        }
    }

    /// The digest of a file.
    pub fn into_hashed(self) -> (r: Result<[u8; 32], DsyncError>)
        ensures
            match self {
                Response::Hashed(h) => r == Ok::<[u8; 32], DsyncError>(h),
                _ => r matches Err(e) && e@ == complaint(self),
            },
    {
        match self {
            Response::Hashed(h) => Ok(h),
            other => Err(protocol_error(other)),
        }
    }

    /// That something was done.
    pub fn into_done(self) -> (r: Result<(), DsyncError>)
        ensures
            match self {
                Response::Done => r is Ok,
                _ => r matches Err(e) && e@ == complaint(self),
            },
    {
        match self {
            Response::Done => Ok(()),
            other => Err(protocol_error(other)),
        }
    }

    /// What the agent's reply to the first message comes to. The versions must be the same.
    pub open spec fn handshake_outcome(self) -> Result<(), ErrorView> {
        match self {
            Response::Hello { version } => if version == PROTOCOL_VERSION {
                Ok(())
            } else {
                Err(
                    ErrorView::Protocol(
                        "protocol version mismatch (remote "@ + text::decimal(version as nat)
                            + ", local "@ + text::decimal(PROTOCOL_VERSION as nat)
                            + "); upgrade dsync on both ends"@,
                    ),
                )
            },
            Response::Error(e) => Err(ErrorView::Protocol(e@)),
            _ => Err(ErrorView::Protocol("unexpected handshake response"@)),
        }
    }

    /// Whether the agent's reply to the first message lets the client go on.
    pub fn into_handshake(self) -> (r: Result<(), DsyncError>)
        ensures
            match r {
                Ok(_) => self.handshake_outcome() == Ok::<(), ErrorView>(()),
                Err(e) => self.handshake_outcome() == Err::<(), ErrorView>(e@),
            },
    {
        match self {
            Response::Hello { version } => {
                if version == PROTOCOL_VERSION {
                    return Ok(());
                }
                let mut m = glue(
                    "protocol version mismatch (remote ",
                    show_u64(version as u64).as_str(),
                );
                m.append(", local ");
                m.append(show_u64(PROTOCOL_VERSION as u64).as_str());
                m.append("); upgrade dsync on both ends");
                Err(DsyncError::Protocol(m))
            },
            Response::Error(e) => Err(DsyncError::Protocol(e)),
            _ => Err(DsyncError::Protocol("unexpected handshake response".to_owned())),
        }
    }
}


/// A payload is compressed exactly if that is wanted and it has more than 256 bytes; otherwise it
/// travels as it is.
pub proof fn law_long_payloads_are_compressed(payload: Seq<u8>, compress: bool, level: i32)
    ensures
        !compress || payload.len() <= 256 ==> flag_of(payload, compress) == 0 && body_of(
            payload,
            compress,
            level,
        ) == Ok::<Seq<u8>, ErrorView>(payload),
        compress && payload.len() > 256 ==> flag_of(payload, compress) == 1 && (zstd_packed(
            payload,
            level,
        ) matches Ok(packed) ==> body_of(payload, compress, level) == Ok::<Seq<u8>, ErrorView>(
            packed,
        )),
        compress && payload.len() > 256 && zstd_packed(payload, level) is Err ==> body_of(
            payload,
            compress,
            level,
        ) is Err,
{
}

/// A body under flag 0 is the payload, one under flag 1 is decompressed, and any other flag is
/// refused.
pub proof fn law_flag_says_how_a_body_is_read(flag: u8, body: Seq<u8>, payload: Seq<u8>)
    ensures
        opened(0, body) == Ok::<Seq<u8>, ErrorView>(body),
        unpacks_to(body, payload) ==> opened(1, body) == Ok::<Seq<u8>, ErrorView>(payload),
        zstd_unpacked(body) is Err ==> opened(1, body) is Err,
        flag > 1 ==> opened(flag, body) == Err::<Seq<u8>, ErrorView>(
            ErrorView::Protocol("unknown frame flag "@ + text::decimal(flag as nat)),
        ),
{
}

/// A frame is the flag, the length of the body in four bytes, the lowest first, and the body.
pub proof fn law_frame_byte_by_byte(flag: u8, body: Seq<u8>)
    requires
        body.len() <= u32::MAX,
    ensures
        framed(flag, body).len() == 5 + body.len(),
        framed(flag, body)[0] == flag,
        framed(flag, body)[1] + 0x100 * framed(flag, body)[2] + 0x1_0000 * framed(flag, body)[3]
            + 0x100_0000 * framed(flag, body)[4] == body.len(),
        framed(flag, body).skip(5) == body,
{
    law_frame_holds_its_body(flag, body);
    let f = framed(flag, body);
    assert(f.subrange(1, 5)[0] == f[1]);
    assert(f.subrange(1, 5)[1] == f[2]);
    assert(f.subrange(1, 5)[2] == f[3]);
    assert(f.subrange(1, 5)[3] == f[4]);
}

/// A reply of the wrong kind is a protocol error; the agent's own complaint is passed on, word for
/// word.
pub proof fn law_complaints_are_passed_on(resp: Response)
    ensures
        resp matches Response::Error(e) ==> complaint(resp) == ErrorView::Protocol(e@)
            && resp.handshake_outcome() == Err::<(), ErrorView>(ErrorView::Protocol(e@)),
        !(resp is Error) ==> complaint(resp) == ErrorView::Protocol(
            "unexpected response variant"@,
        ),
        resp matches Response::Hello { version } ==> (resp.handshake_outcome() is Ok <==> version
            == 1),
        resp.handshake_outcome() is Ok ==> resp is Hello,
{
}

} // verus!
