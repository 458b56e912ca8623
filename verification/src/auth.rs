//! Client authentication: either implicit trust, or an MD5 salted-password
//! challenge whose reply is checked against the expected password with a
//! constant-time comparison.

use vstd::prelude::*;

use crate::startup::{StartupData, StartupRequest, StartupResponse};
use vstd::utf8::encode_utf8;

verus! {

/// The 16-byte MD5 digest of a byte sequence: a function of the input
/// alone, named here and computed only by the outside digest crate.
pub uninterp spec fn md5_of(bytes: Seq<u8>) -> Seq<u8>;

/// Relies on md5::compute: the MD5 digest of the input, 16 bytes long and
/// depending on the input bytes alone.
#[verifier::external_body]
fn md5_digest(data: &Vec<u8>) -> (r: Vec<u8>)
    ensures
        r@ == md5_of(data@),
        r@.len() == 16,
{
    md5::compute(data.as_slice()).0.to_vec()
}

/// Relies on constant_time_eq::constant_time_eq: whether the two byte
/// slices hold the same bytes, compared without data-dependent timing when
/// the lengths agree.
#[verifier::external_body]
fn constant_time_bytes_eq(a: &[u8], b: &[u8]) -> (r: bool)
    ensures
        r == (a@ == b@),
{
    constant_time_eq::constant_time_eq(a, b)
}

/// Relies on rand::fill: four bytes from the thread-local cryptographic
/// generator. Nothing is assumed of their values.
#[verifier::external_body]
fn random_salt() -> (r: [u8; 4]) {
    let mut salt = [0u8; 4];
    rand::fill(&mut salt[..]);
    salt
}

/// The lower-case ASCII hex digit of a value below 16.
pub open spec fn hex_digit(n: int) -> u8
    recommends
        0 <= n < 16,
{
    if n < 10 {
        (48 + n) as u8  // '0' to '9'
    } else {
        (87 + n) as u8  // 'a' to 'f'
    }
}

/// Lower-case hex encoding: two digits for each byte.
pub open spec fn hex_of(s: Seq<u8>) -> Seq<u8> {
    Seq::new(
        2 * s.len(),
        |i: int|
            if i % 2 == 0 {
                hex_digit(s[i / 2] as int / 16)
            } else {
                hex_digit(s[i / 2] as int % 16)
            },
    )
}

/// Encodes bytes as lower-case hex.
pub fn hex_lower(bytes: &[u8]) -> (r: Vec<u8>)
    ensures
        r@ == hex_of(bytes@),
{
    let mut out: Vec<u8> = Vec::new();
    let mut i: usize = 0;
    while i < bytes.len()
        invariant
            i <= bytes@.len(),
            out@ == hex_of(bytes@.take(i as int)),
        decreases bytes@.len() - i,
    {
        let b = bytes[i];
        let hi = b / 16;
        let lo = b % 16;
        out.push(
            if hi < 10 {
                48 + hi
            } else {
                87 + hi
            },
        );
        out.push(
            if lo < 10 {
                48 + lo
            } else {
                87 + lo
            },
        );
        i = i + 1;
        proof {
            assert(out@ =~= hex_of(bytes@.take(i as int)));
        }
    }
    proof {
        assert(bytes@.take(bytes@.len() as int) =~= bytes@);
    }
    out
}

/// The PostgreSQL MD5 salted-password form:
/// `"md5" || hex(md5( hex(md5(password || username)) || salt ))`,
/// with lower-case hex. 109 100 53 spell `"md5"`.
pub open spec fn spec_md5_hash(username: Seq<u8>, password: Seq<u8>, salt: Seq<u8>) -> Seq<u8> {
    seq![109u8, 100u8, 53u8] + hex_of(md5_of(hex_of(md5_of(password + username)) + salt))
}

/// Computes the PostgreSQL MD5 salted-password hash.
pub fn md5_hash(username: &[u8], password: &[u8], salt: &[u8; 4]) -> (r: Vec<u8>)
    ensures
        r@ == spec_md5_hash(username@, password@, salt@),
{
    let mut inner: Vec<u8> = Vec::new();
    inner.extend_from_slice(password);
    inner.extend_from_slice(username);
    proof {
        assert(inner@ =~= password@ + username@);
    }
    let first = md5_digest(&inner);
    let mut outer = hex_lower(first.as_slice());
    outer.push(salt[0]);
    outer.push(salt[1]);
    outer.push(salt[2]);
    outer.push(salt[3]);
    proof {
        assert(outer@ =~= hex_of(md5_of(password@ + username@)) + salt@);
    }
    let second = md5_digest(&outer);
    let digits = hex_lower(second.as_slice());
    let mut r: Vec<u8> = Vec::new();
    r.push(109);  // 'm'
    r.push(100);  // 'd'
    r.push(53);  // '5'
    r.extend_from_slice(digits.as_slice());
    proof {
        assert(r@ =~= spec_md5_hash(username@, password@, salt@));
    }
    r
}

/// Whether a received hash authenticates: the startup parameters name a
/// `"user"`, and the hash is the MD5 salted-password form over that user,
/// the expected password, and the salt.
pub open spec fn spec_password_ok(
    params: Map<Seq<char>, Seq<u8>>,
    password: Seq<u8>,
    received: Seq<u8>,
    salt: Seq<u8>,
) -> bool {
    &&& params.contains_key("user"@)
    &&& received == spec_md5_hash(params["user"@], password, salt)
}

/// Checks a received password hash: the `"user"` startup parameter names
/// the role, and the comparison against the expected hash runs in constant
/// time.
pub fn md5_password_equal(
    expected_password: &[u8],
    received_hash: &[u8],
    startup: &StartupData,
    salt: &[u8; 4],
) -> (r: bool)
    requires
        startup.wf(),
    ensures
        r == spec_password_ok(
            startup.spec_params(),
            expected_password@,
            received_hash@,
            salt@,
        ),
{
    let username = match startup.get_parameter("user") {
        Some(u) => u,
        None => {
            return false;
        },
    };
    let expected = md5_hash(username.as_slice(), expected_password, salt);
    constant_time_bytes_eq(received_hash, expected.as_slice())
}

/// How an accepted connection authenticates its client.
pub enum AuthMethod {
    /// The client is trusted implicitly, with no challenge.
    Trust,
    /// The client must answer an MD5 challenge for this password.
    Password(String),
}

/// Why authentication failed.
#[derive(Clone, Copy, Debug, PartialEq, Eq, Structural)]
pub enum AuthError {
    /// The reply to the challenge was not a Password message.
    UnexpectedMessage,
    /// The hash did not match, or the startup carried no `"user"`.
    InvalidPassword,
}

/// Begins the authentication sub-dialogue: trust needs no messages, a
/// password method draws a fresh random salt and issues the MD5 challenge
/// carrying it.
pub fn begin_auth(method: &AuthMethod) -> (r: Option<([u8; 4], StartupResponse)>)
    ensures
        r is None <==> method is Trust,
        r matches Some((salt, resp)) ==> resp == (StartupResponse::AuthenticationMD5Password {
            salt,
        }),
{
    match method {
        AuthMethod::Trust => None,
        AuthMethod::Password(_) => {
            let salt = random_salt();
            Some((salt, StartupResponse::AuthenticationMD5Password { salt }))
        },
    }
}

/// Judges the frame read after an MD5 challenge: only a Password message is
/// legal, and its hash must match the expected password for the startup's
/// `"user"` under the challenge's salt.
pub fn check_password_response(
    expected_password: &String,
    msg: Option<StartupRequest>,
    startup: &StartupData,
    salt: &[u8; 4],
) -> (r: Result<(), AuthError>)
    requires
        startup.wf(),
    ensures
        match r {
            Ok(()) => msg matches Some(StartupRequest::Password(h)) && spec_password_ok(
                startup.spec_params(),
                encode_utf8(expected_password@),
                h@,
                salt@,
            ),
            Err(AuthError::InvalidPassword) => msg matches Some(StartupRequest::Password(h))
                && !spec_password_ok(
                startup.spec_params(),
                encode_utf8(expected_password@),
                h@,
                salt@,
            ),
            Err(AuthError::UnexpectedMessage) => !(msg matches Some(
                StartupRequest::Password(_),
            )),
        },
{
    match msg {
        Some(StartupRequest::Password(h)) => {
            if md5_password_equal(
                expected_password.as_str().as_bytes(),
                h.as_slice(),
                startup,
                salt,
            ) {
                Ok(())
            } else {
                Err(AuthError::InvalidPassword)
            }
        },
        _ => Err(AuthError::UnexpectedMessage),
    }
}

} // verus!
