use pg_proxy::auth::{
    begin_auth, check_password_response, hex_lower, md5_hash, md5_password_equal, AuthError,
    AuthMethod,
};
use pg_proxy::startup::{StartupData, StartupRequest, StartupResponse};

fn hex_string(bytes: &[u8]) -> String {
    String::from_utf8(hex_lower(bytes)).unwrap()
}

#[test]
fn hex_lower_exact() {
    assert_eq!(hex_lower(&[]), b"".to_vec());
    assert_eq!(hex_lower(&[0x00, 0xAB, 0xFF, 0x1a]), b"00abff1a".to_vec());
}

#[test]
fn md5_hash_matches_postgres_form() {
    let salt = [0x11, 0x22, 0x33, 0x44];
    // compute the same salted form directly with the digest crate
    let inner = md5::compute(b"hunter2u");
    let mut outer_input = hex_string(&inner.0).into_bytes();
    outer_input.extend_from_slice(&salt);
    let outer = md5::compute(&outer_input);
    let mut expected = b"md5".to_vec();
    expected.extend_from_slice(hex_string(&outer.0).as_bytes());

    assert_eq!(md5_hash(b"u", b"hunter2", &salt), expected);
}

#[test]
fn md5_password_equal_accepts_correct_hash() {
    let startup = StartupData::parse(b"user\0u\0\0".to_vec());
    let salt = [1, 2, 3, 4];
    let hash = md5_hash(b"u", b"hunter2", &salt);
    assert!(md5_password_equal(b"hunter2", &hash, &startup, &salt));
}

#[test]
fn md5_password_equal_rejects_first_byte_flip() {
    let startup = StartupData::parse(b"user\0u\0\0".to_vec());
    let salt = [1, 2, 3, 4];
    let mut hash = md5_hash(b"u", b"hunter2", &salt);
    hash[0] ^= 0x01;
    assert!(!md5_password_equal(b"hunter2", &hash, &startup, &salt));
}

#[test]
fn md5_password_equal_rejects_last_byte_flip() {
    let startup = StartupData::parse(b"user\0u\0\0".to_vec());
    let salt = [1, 2, 3, 4];
    let mut hash = md5_hash(b"u", b"hunter2", &salt);
    let n = hash.len() - 1;
    hash[n] ^= 0x01;
    assert!(!md5_password_equal(b"hunter2", &hash, &startup, &salt));
}

#[test]
fn md5_password_equal_rejects_missing_user() {
    let startup = StartupData::parse(b"database\0d\0\0".to_vec());
    let salt = [1, 2, 3, 4];
    let hash = md5_hash(b"u", b"hunter2", &salt);
    assert!(!md5_password_equal(b"hunter2", &hash, &startup, &salt));
}

#[test]
fn begin_auth_trust_sends_nothing() {
    assert!(begin_auth(&AuthMethod::Trust).is_none());
}

#[test]
fn begin_auth_password_issues_challenge_with_its_salt() {
    let r = begin_auth(&AuthMethod::Password(String::from("pw"))).unwrap();
    let (salt, resp) = r;
    match resp {
        StartupResponse::AuthenticationMD5Password { salt: s } => assert_eq!(s, salt),
        other => panic!("expected md5 challenge, got {:?}", other),
    }
}

#[test]
fn check_password_response_accepts_valid_reply() {
    let startup = StartupData::parse(b"user\0alice\0\0".to_vec());
    let salt = [9, 9, 9, 9];
    let hash = md5_hash(b"alice", b"s3cret", &salt);
    let pw = String::from("s3cret");
    let msg = Some(StartupRequest::Password(hash));
    assert_eq!(check_password_response(&pw, msg, &startup, &salt), Ok(()));
}

#[test]
fn check_password_response_rejects_wrong_password() {
    let startup = StartupData::parse(b"user\0alice\0\0".to_vec());
    let salt = [9, 9, 9, 9];
    let hash = md5_hash(b"alice", b"wrong", &salt);
    let pw = String::from("s3cret");
    let msg = Some(StartupRequest::Password(hash));
    assert_eq!(
        check_password_response(&pw, msg, &startup, &salt),
        Err(AuthError::InvalidPassword)
    );
}

#[test]
fn check_password_response_rejects_non_password_message() {
    let startup = StartupData::parse(b"user\0alice\0\0".to_vec());
    let salt = [9, 9, 9, 9];
    let pw = String::from("s3cret");
    assert_eq!(
        check_password_response(&pw, None, &startup, &salt),
        Err(AuthError::UnexpectedMessage)
    );
    assert_eq!(
        check_password_response(&pw, Some(StartupRequest::SSLRequest), &startup, &salt),
        Err(AuthError::UnexpectedMessage)
    );
}
