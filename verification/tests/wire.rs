use dsync::delta::Delta;
use dsync::delta::Signature;
use dsync::error::DsyncError;
use dsync::server::asked;
use dsync::server::respond;
use dsync::server::rules_for;
use dsync::server::unexpected_control;
use dsync::server::Agent;
use dsync::server::Asked;
use dsync::server::Decision;
use dsync::server::Produced;
use dsync::transport::protocol::body_len;
use dsync::transport::protocol::frame;
use dsync::transport::protocol::protocol_error;
use dsync::transport::protocol::unframe;
use dsync::transport::protocol::FrameReader;
use dsync::transport::protocol::Request;
use dsync::transport::protocol::Response;
use dsync::transport::protocol::PROTOCOL_VERSION;
use dsync::transport::EntryKind;
use dsync::transport::FileEntry;

fn read_back(frame: &[u8]) -> Vec<u8> {
    let len = body_len(&[frame[1], frame[2], frame[3], frame[4]]) as usize;
    assert_eq!(frame.len(), 5 + len);
    unframe(frame[0], frame[5..].to_vec()).unwrap()
}

#[test]
fn short_payloads_go_as_they_are() {
    for compress in [false, true] {
        let f = frame(vec![9, 8, 7], compress, 3).unwrap();
        assert_eq!(f, [0, 3, 0, 0, 0, 9, 8, 7]);
        assert_eq!(read_back(&f), [9, 8, 7]);
    }
    let edge = frame(vec![1; 256], true, 3).unwrap();
    assert_eq!(&edge[..5], &[0, 0, 1, 0, 0]);
    assert_eq!(frame(vec![], true, 3).unwrap(), [0, 0, 0, 0, 0]);
}

#[test]
fn long_payloads_are_compressed_if_asked() {
    let payload: Vec<u8> = vec![7; 100_000];
    let raw = frame(payload.clone(), false, 3).unwrap();
    assert_eq!(raw[0], 0);
    assert_eq!(&raw[1..5], &100_000u32.to_le_bytes());
    assert_eq!(read_back(&raw), payload);
    let packed = frame(payload.clone(), true, 3).unwrap();
    assert_eq!(packed[0], 1);
    assert!(packed.len() < 1000);
    assert_eq!(&packed[5..], &zstd::encode_all(payload.as_slice(), 3).unwrap()[..]);
    assert_eq!(read_back(&packed), payload);
}

#[test]
fn every_level_can_be_read_back() {
    let payload: Vec<u8> = (0..5000u32).map(|i| (i * i % 251) as u8).collect();
    for level in [-5, 0, 1, 3, 19] {
        assert_eq!(read_back(&frame(payload.clone(), true, level).unwrap()), payload);
    }
}

#[test]
fn frames_follow_each_other() {
    let mut stream = frame(vec![1, 2], false, 3).unwrap();
    stream.extend(frame(vec![5; 1000], true, 3).unwrap());
    stream.extend(frame(vec![], false, 3).unwrap());
    let mut payloads = Vec::new();
    let mut rest = stream.as_slice();
    while !rest.is_empty() {
        let end = 5 + body_len(&[rest[1], rest[2], rest[3], rest[4]]) as usize;
        payloads.push(unframe(rest[0], rest[5..end].to_vec()).unwrap());
        rest = &rest[end..];
    }
    assert_eq!(payloads, [vec![1, 2], vec![5; 1000], vec![]]);
}

/// The first payload of a stream and how many bytes it takes, or what is said instead.
fn read_from(stream: &[u8]) -> Result<(Vec<u8>, usize), DsyncError> {
    let mut reader = FrameReader::new();
    let mut at = 0;
    loop {
        let n = reader.wants();
        if stream.len() - at < n {
            return Err(reader.ended("early eof"));
        }
        let bytes = stream[at..at + n].to_vec();
        at += n;
        if let Some(payload) = reader.took(bytes) {
            return payload.map(|p| (p, at));
        }
    }
}

#[test]
fn a_frame_is_read_from_a_stream_to_its_last_byte() {
    for (payload, compress) in [(vec![], true), (vec![5; 300], true), (vec![6; 300], false)] {
        let one = frame(payload.clone(), compress, 3).unwrap();
        let mut stream = one.clone();
        stream.extend([9, 9, 9]);
        assert_eq!(read_from(&stream).unwrap(), (payload, one.len()));
        for cut in 0..one.len() {
            let part = match cut {
                0 => "flag",
                1..=4 => "len",
                _ => "body",
            };
            assert_eq!(
                read_from(&one[..cut]).unwrap_err().message(),
                format!("protocol error: read {part}: early eof")
            );
        }
    }
    assert_eq!(
        read_from(&[2, 1, 0, 0, 0, 7]).unwrap_err().message(),
        "protocol error: unknown frame flag 2"
    );
}

#[test]
fn client_and_agent_need_the_same_version() {
    for version in [PROTOCOL_VERSION, PROTOCOL_VERSION + 1] {
        let hello = Request::Hello { version, compress: false, level: 1 };
        match Agent::new().on_request(hello) {
            Decision::Reply(reply) => {
                assert_eq!(reply.into_handshake().is_ok(), version == PROTOCOL_VERSION);
            }
            _ => panic!("expected a reply"),
        }
    }
}

#[test]
fn frames_that_are_none() {
    let e = unframe(2, vec![]).unwrap_err();
    assert_eq!(e.message(), "protocol error: unknown frame flag 2");
    let e = unframe(1, vec![1, 2, 3]).unwrap_err();
    let reason = zstd::decode_all(&[1u8, 2, 3][..]).unwrap_err().to_string();
    assert_eq!(e.message(), format!("protocol error: zstd decode: {reason}"));
    assert_eq!(body_len(&[1, 2, 3, 4]), 0x0403_0201);
    assert_eq!(body_len(&[255; 4]), u32::MAX);
}

#[test]
fn the_agent_answers_the_first_message() {
    let mut agent = Agent::new();
    assert_eq!(agent.compression(), (true, 3));
    let hello = Request::Hello { version: PROTOCOL_VERSION, compress: false, level: 7 };
    match agent.on_request(hello) {
        Decision::Reply(Response::Hello { version }) => assert_eq!(version, PROTOCOL_VERSION),
        other => panic!("{other:?}"),
    }
    assert_eq!(agent.compression(), (false, 7));
    match agent.on_request(Request::Hello { version: 9, compress: true, level: 1 }) {
        Decision::Reply(Response::Error(m)) => assert_eq!(
            m,
            "protocol version mismatch (remote 1, client 9); upgrade dsync on both ends"
        ),
        other => panic!("{other:?}"),
    }
    assert_eq!(agent.compression(), (true, 1));
}

#[test]
fn the_agent_passes_requests_on_until_it_stops() {
    let mut agent = Agent::new();
    match agent.on_request(Request::Hash { rel: "a".into() }) {
        Decision::Execute(Request::Hash { rel }) => assert_eq!(rel, "a"),
        other => panic!("{other:?}"),
    }
    assert!(matches!(agent.on_request(Request::Shutdown), Decision::Stop));
    let bad = respond(Err(DsyncError::io("p", "denied")));
    assert!(matches!(bad, Response::Error(m) if m == "io error at p: denied"));
    assert!(matches!(respond(Ok((Asked::Change, Produced::Nothing))), Response::Done));
    assert_eq!(unexpected_control().message(), "protocol error: unexpected control frame");
}

#[test]
fn the_client_gets_what_it_asked_for() {
    let rel = || "a".to_string();
    let scan = asked(&Request::Scan { ignore_patterns: None }).unwrap();
    assert!(respond(Ok((scan, Produced::Entries(vec![])))).into_scanned().unwrap().is_empty());
    let sign = asked(&Request::Signature { rel: rel() }).unwrap();
    assert!(respond(Ok((sign, Produced::Signature(None)))).into_sig().unwrap().is_none());
    let diff = asked(&Request::Diff { rel: rel(), sig: Signature(vec![]) }).unwrap();
    let reply = respond(Ok((diff, Produced::Delta(Delta(vec![4])))));
    assert_eq!(reply.into_diffed().unwrap().0, [4]);
    let patch = Request::Patch { rel: rel(), delta: Delta(vec![]), mtime: 0, mode: 0 };
    let write = Request::WriteFile { rel: rel(), data: vec![], mtime: 0, mode: 0 };
    for req in [patch, write] {
        let reply = respond(Ok((asked(&req).unwrap(), Produced::Digest([7; 32]))));
        assert_eq!(reply.into_patched().unwrap(), [7; 32]);
    }
    let read = asked(&Request::ReadFile { rel: rel() }).unwrap();
    let reply = respond(Ok((read, Produced::Content(vec![1, 2]))));
    assert_eq!(reply.into_file_data().unwrap(), [1, 2]);
    let hash = asked(&Request::Hash { rel: rel() }).unwrap();
    let reply = respond(Ok((hash, Produced::Digest([8; 32]))));
    assert_eq!(reply.into_hashed().unwrap(), [8; 32]);
    for req in [Request::Mkdir { rel: rel(), mode: 0o755 }, Request::Remove { rel: rel() }] {
        let reply = respond(Ok((asked(&req).unwrap(), Produced::Nothing)));
        assert!(reply.into_done().is_ok());
    }
    let hello = Request::Hello { version: 1, compress: true, level: 3 };
    for req in [hello, Request::Shutdown] {
        let e = asked(&req).unwrap_err();
        assert_eq!(e.message(), "protocol error: unexpected control frame");
    }
}

#[test]
fn the_agent_takes_the_clients_patterns() {
    assert!(rules_for("/r", None).unwrap().is_none());
    let set = rules_for("/r", Some("*.log\n")).unwrap().unwrap();
    assert!(set.is_ignored("a.log", false));
    assert!(!set.is_ignored("a.txt", false));
    assert!(rules_for("/r", Some("a{\n")).is_err());
}

#[test]
fn replies_of_the_right_kind() {
    let entry = FileEntry {
        rel_path: "a.txt".into(),
        len: 10,
        mtime: 5,
        kind: EntryKind::File,
        mode: 0o644,
    };
    assert_eq!(Response::Scanned(vec![entry]).into_scanned().unwrap()[0].rel_path, "a.txt");
    assert_eq!(Response::Sig(Some(Signature(vec![1]))).into_sig().unwrap().unwrap().0, [1]);
    assert_eq!(Response::Diffed(Delta(vec![2])).into_diffed().unwrap().0, [2]);
    assert_eq!(Response::Patched([3; 32]).into_patched().unwrap(), [3; 32]);
    assert_eq!(Response::FileData(vec![4]).into_file_data().unwrap(), [4]);
    assert_eq!(Response::Hashed([5; 32]).into_hashed().unwrap(), [5; 32]);
    assert!(Response::Done.into_done().is_ok());
    assert!(Response::Hello { version: PROTOCOL_VERSION }.into_handshake().is_ok());
}

#[test]
fn replies_of_the_wrong_kind() {
    let unexpected = "protocol error: unexpected response variant";
    assert_eq!(Response::Done.into_scanned().unwrap_err().message(), unexpected);
    assert_eq!(Response::Done.into_sig().unwrap_err().message(), unexpected);
    assert_eq!(Response::Done.into_diffed().unwrap_err().message(), unexpected);
    assert_eq!(Response::Hashed([0; 32]).into_patched().unwrap_err().message(), unexpected);
    assert_eq!(Response::Done.into_file_data().unwrap_err().message(), unexpected);
    assert_eq!(Response::Patched([0; 32]).into_hashed().unwrap_err().message(), unexpected);
    assert_eq!(Response::FileData(vec![]).into_done().unwrap_err().message(), unexpected);
    let own = Response::Error("no".into());
    assert_eq!(protocol_error(own).message(), "protocol error: no");
}

#[test]
fn handshakes_that_fail() {
    let say = |r: Response| r.into_handshake().unwrap_err().message();
    assert_eq!(
        say(Response::Hello { version: 2 }),
        "protocol error: protocol version mismatch (remote 2, local 1); upgrade dsync on both ends"
    );
    assert_eq!(say(Response::Error("old".into())), "protocol error: old");
    assert_eq!(say(Response::Done), "protocol error: unexpected handshake response");
}
