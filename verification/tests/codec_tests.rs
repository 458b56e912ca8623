use pg_proxy::codec::StartupCodec;
use pg_proxy::startup::{CancelData, StartupRequest};
use pg_proxy::wire::DecodeError;

fn untagged(len: u32, code: u32, body: &[u8]) -> Vec<u8> {
    let mut v = Vec::new();
    v.extend_from_slice(&len.to_be_bytes());
    v.extend_from_slice(&code.to_be_bytes());
    v.extend_from_slice(body);
    v
}

#[test]
fn decode_ssl_request_exact_bytes() {
    let mut codec = StartupCodec::new();
    let mut buf = vec![0x00, 0x00, 0x00, 0x08, 0x04, 0xD2, 0x16, 0x2F];
    let r = codec.decode(&mut buf).unwrap();
    assert!(matches!(r, Some(StartupRequest::SSLRequest)));
    assert!(buf.is_empty());
}

#[test]
fn decode_gss_request() {
    let mut codec = StartupCodec::new();
    let mut buf = untagged(8, 80877104, &[]);
    let r = codec.decode(&mut buf).unwrap();
    assert!(matches!(r, Some(StartupRequest::GSSEncRequest)));
}

#[test]
fn decode_cancel_request_exact_bytes() {
    let mut codec = StartupCodec::new();
    let mut buf = vec![
        0x00, 0x00, 0x00, 0x10, 0x04, 0xD2, 0x16, 0x2E, 0x00, 0x00, 0x00, 0x2A, 0x00, 0x00,
        0x00, 0x63,
    ];
    let r = codec.decode(&mut buf).unwrap();
    match r {
        Some(StartupRequest::Cancel(CancelData { process_id, secret_key })) => {
            assert_eq!(process_id, 42);
            assert_eq!(secret_key, 99);
        }
        other => panic!("expected cancel, got {:?}", other),
    }
    assert!(buf.is_empty());
}

#[test]
fn decode_cancel_negative_ints() {
    let mut codec = StartupCodec::new();
    let mut buf = untagged(16, 80877102, &[0xFF, 0xFF, 0xFF, 0xFF, 0x80, 0x00, 0x00, 0x00]);
    let r = codec.decode(&mut buf).unwrap();
    match r {
        Some(StartupRequest::Cancel(d)) => {
            assert_eq!(d.process_id, -1);
            assert_eq!(d.secret_key, i32::MIN);
        }
        other => panic!("expected cancel, got {:?}", other),
    }
}

#[test]
fn decode_unknown_code_is_invalid() {
    let mut codec = StartupCodec::new();
    let mut buf = untagged(8, 12345, &[]);
    assert_eq!(codec.decode(&mut buf), Err(DecodeError::UnknownCode));
}

#[test]
fn length_below_minimum_rejected() {
    let mut codec = StartupCodec::new();
    // len = 3 < 4
    let mut buf = untagged(3, 196608, &[]);
    assert_eq!(codec.decode(&mut buf), Err(DecodeError::InvalidLength));
}

#[test]
fn length_above_maximum_rejected() {
    let mut codec = StartupCodec::new();
    let mut buf = untagged(10001, 196608, &[]);
    assert_eq!(codec.decode(&mut buf), Err(DecodeError::InvalidLength));
}

#[test]
fn length_error_consumes_nothing() {
    let mut codec = StartupCodec::new();
    let mut buf = untagged(10001, 196608, &[1, 2, 3]);
    let before = buf.clone();
    let _ = codec.decode(&mut buf);
    assert_eq!(buf, before);
}

#[test]
fn valid_frame_consumes_exactly_len_bytes() {
    let mut codec = StartupCodec::new();
    let mut buf = untagged(8, 80877103, &[]);
    buf.extend_from_slice(&[0xAA, 0xBB]); // bytes of a following frame
    codec.decode(&mut buf).unwrap();
    assert_eq!(buf, vec![0xAA, 0xBB]);
}

#[test]
fn incomplete_frame_needs_more() {
    let mut codec = StartupCodec::new();
    let mut buf = vec![0x00, 0x00, 0x00];
    assert!(matches!(codec.decode(&mut buf), Ok(None)));
    let mut buf2 = untagged(16, 80877102, &[0, 0]); // 6 of 8 body bytes missing
    buf2.truncate(10);
    assert!(matches!(codec.decode(&mut buf2), Ok(None)));
}

#[test]
fn cancel_with_trailing_byte_rejected() {
    let mut codec = StartupCodec::new();
    let mut buf = untagged(17, 80877102, &[0, 0, 0, 1, 0, 0, 0, 2, 9]);
    assert_eq!(codec.decode(&mut buf), Err(DecodeError::TrailingBytes));
}

#[test]
fn ssl_with_trailing_byte_rejected() {
    let mut codec = StartupCodec::new();
    let mut buf = untagged(9, 80877103, &[0]);
    assert_eq!(codec.decode(&mut buf), Err(DecodeError::TrailingBytes));
}

#[test]
fn cancel_too_short_is_eof() {
    let mut codec = StartupCodec::new();
    let mut buf = untagged(12, 80877102, &[0, 0, 0, 1]);
    assert_eq!(codec.decode(&mut buf), Err(DecodeError::UnexpectedEof));
}

#[test]
fn startup_parses_payload_and_switches_phase() {
    let mut codec = StartupCodec::new();
    let payload = b"user\0u\0\0";
    let mut frame = untagged(8 + payload.len() as u32, 196608, payload);
    let r = codec.decode(&mut frame).unwrap();
    match r {
        Some(StartupRequest::Startup(p)) => assert_eq!(p, payload.to_vec()),
        other => panic!("expected startup, got {:?}", other),
    }
    assert!(codec.seen_client_startup());

    // phase transition: the next frame must carry a tag byte
    let mut pw = vec![b'p'];
    pw.extend_from_slice(&9u32.to_be_bytes());
    pw.extend_from_slice(b"hash\0");
    let r2 = codec.decode(&mut pw).unwrap();
    match r2 {
        Some(StartupRequest::Password(h)) => assert_eq!(h, b"hash".to_vec()),
        other => panic!("expected password, got {:?}", other),
    }
    assert!(pw.is_empty());
}

#[test]
fn tagged_unknown_tag_rejected() {
    let mut codec = StartupCodec::new();
    let mut frame = untagged(8 + 1, 196608, &[0]);
    codec.decode(&mut frame).unwrap();
    let mut bad = vec![b'q'];
    bad.extend_from_slice(&5u32.to_be_bytes());
    bad.push(0);
    assert_eq!(codec.decode(&mut bad), Err(DecodeError::UnknownTag));
}

#[test]
fn tagged_password_without_terminator_is_eof() {
    let mut codec = StartupCodec::new();
    let mut frame = untagged(9, 196608, &[0]);
    codec.decode(&mut frame).unwrap();
    let mut pw = vec![b'p'];
    pw.extend_from_slice(&8u32.to_be_bytes());
    pw.extend_from_slice(b"hash");
    assert_eq!(codec.decode(&mut pw), Err(DecodeError::UnexpectedEof));
}

#[test]
fn tagged_password_with_trailing_bytes_rejected() {
    let mut codec = StartupCodec::new();
    let mut frame = untagged(9, 196608, &[0]);
    codec.decode(&mut frame).unwrap();
    let mut pw = vec![b'p'];
    pw.extend_from_slice(&10u32.to_be_bytes());
    pw.extend_from_slice(b"hash\0x");
    assert_eq!(codec.decode(&mut pw), Err(DecodeError::TrailingBytes));
}

#[test]
fn password_before_startup_misparses_as_untagged() {
    // in un-tagged mode the first four bytes of "p..." are read as a length
    // and fail the range check, so the connection dies on a framing error
    let mut codec = StartupCodec::new();
    let mut buf = vec![b'p'];
    buf.extend_from_slice(&8u32.to_be_bytes());
    buf.extend_from_slice(b"md5x\0");
    let r = codec.decode(&mut buf);
    assert!(matches!(
        r,
        Err(DecodeError::InvalidLength) | Err(DecodeError::UnknownCode)
    ));
}
