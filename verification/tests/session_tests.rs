//! A whole startup dialogue exercised at the byte level: SSL probe, startup,
//! MD5 challenge and reply, and the final handshake replay.

use pg_proxy::auth::{begin_auth, check_password_response, md5_hash, AuthMethod};
use pg_proxy::codec::{ReadOutcome, StartupCodec, StartupInfo};
use pg_proxy::proxy::{encode_responses, handshake_replay, on_startup_info, StartupDecision};
use pg_proxy::startup::StartupResponse;

fn untagged(len: u32, code: u32, body: &[u8]) -> Vec<u8> {
    let mut v = Vec::new();
    v.extend_from_slice(&len.to_be_bytes());
    v.extend_from_slice(&code.to_be_bytes());
    v.extend_from_slice(body);
    v
}

#[test]
fn md5_password_session_end_to_end() {
    let mut codec = StartupCodec::new();
    let mut wire = untagged(8, 80877103, &[]); // SSL probe, to be refused
    let payload = b"user\0u\0database\0d\0\0";
    wire.extend_from_slice(&untagged(8 + payload.len() as u32, 196608, payload));

    // startup reader: refuse SSL, yield the startup
    let mut to_client = Vec::new();
    let info = match pg_proxy::codec::read_frontend_startup(&mut codec, &mut wire, &mut to_client)
        .unwrap()
    {
        ReadOutcome::Terminal(info) => info,
        other => panic!("expected terminal event, got {:?}", other),
    };
    assert_eq!(to_client, vec![b'N']);
    assert!(matches!(info, StartupInfo::Startup(_)));

    let startup_data = match on_startup_info(info) {
        StartupDecision::Route(d) => d,
        other => panic!("expected route, got {:?}", other),
    };

    // the routing policy asks for a password
    let method = AuthMethod::Password(String::from("hunter2"));
    let (salt, challenge) = begin_auth(&method).unwrap();
    let mut challenge_bytes = Vec::new();
    challenge.encode(&mut challenge_bytes);
    assert_eq!(challenge_bytes[0], b'R');
    assert_eq!(&challenge_bytes[1..5], &12u32.to_be_bytes());
    assert_eq!(&challenge_bytes[5..9], &salt);
    assert_eq!(&challenge_bytes[9..13], &0u32.to_be_bytes());

    // the client answers with the salted hash, as a tagged frame
    let hash = md5_hash(b"u", b"hunter2", &salt);
    let mut frame = vec![b'p'];
    frame.extend_from_slice(&((4 + hash.len() + 1) as u32).to_be_bytes());
    frame.extend_from_slice(&hash);
    frame.push(0);
    let msg = codec.decode(&mut frame).unwrap();
    let expected_password = String::from("hunter2");
    assert_eq!(
        check_password_response(&expected_password, msg, &startup_data, &salt),
        Ok(())
    );

    // the backend's parameters are replayed sorted, framed once
    let replay = handshake_replay(vec![(String::from("server_version"), b"16".to_vec())]);
    let mut replay_bytes = Vec::new();
    encode_responses(&replay, &mut replay_bytes);
    assert_eq!(&replay_bytes[..9], &[b'R', 0, 0, 0, 8, 0, 0, 0, 0]);
    assert_eq!(replay_bytes[9], b'S');
    assert_eq!(
        &replay_bytes[replay_bytes.len() - 6..],
        &[b'Z', 0, 0, 0, 5, b'I']
    );
}

#[test]
fn wrong_password_session_rejected() {
    let startup_data = match on_startup_info(StartupInfo::Startup(b"user\0u\0\0".to_vec())) {
        StartupDecision::Route(d) => d,
        other => panic!("expected route, got {:?}", other),
    };
    let method = AuthMethod::Password(String::from("hunter2"));
    let (salt, _challenge) = begin_auth(&method).unwrap();

    let mut codec = StartupCodec::new();
    let payload = b"user\0u\0\0";
    let mut startup_frame = untagged(8 + payload.len() as u32, 196608, payload);
    codec.decode(&mut startup_frame).unwrap();

    let hash = md5_hash(b"u", b"letmein", &salt);
    let mut frame = vec![b'p'];
    frame.extend_from_slice(&((4 + hash.len() + 1) as u32).to_be_bytes());
    frame.extend_from_slice(&hash);
    frame.push(0);
    let msg = codec.decode(&mut frame).unwrap();
    let expected_password = String::from("hunter2");
    assert!(check_password_response(&expected_password, msg, &startup_data, &salt).is_err());
}
