//! Startup-phase messages: the frontend requests with their two frame
//! parsers (un-tagged before the first Startup, tagged after), the parameter
//! block carried by a Startup, and the backend responses with their encoder.

use vstd::prelude::*;

use crate::wire::{
    be_i32_at, be_u32_at, find_zero, push_u32_be, read_be_u32, u32_be_bytes, Buffer, DecodeError,
};
use vstd::utf8::{decode_utf8, encode_utf8, encode_utf8_decode_utf8, valid_utf8};

verus! {

/// Smallest permitted value of a startup length field (the field itself).
pub const MIN_STARTUP_LEN: u32 = 4;

/// Largest permitted value of a startup length field.
pub const MAX_STARTUP_LEN: u32 = 10000;

/// Startup code announcing protocol version 3.0.
pub const CODE_STARTUP: u32 = 196608;

/// Startup code of a cancellation request.
pub const CODE_CANCEL: u32 = 80877102;

/// Startup code of an SSL negotiation request.
pub const CODE_SSL: u32 = 80877103;

/// Startup code of a GSS encryption negotiation request.
pub const CODE_GSS: u32 = 80877104;

/// The key a cancellation request carries to name its victim session.
#[derive(Debug, Clone, Copy, PartialEq, Eq, Structural)]
pub struct CancelData {
    pub process_id: i32,
    pub secret_key: i32,
}

/// A frontend request observed during the startup phase.
#[derive(Debug, PartialEq, Eq)]
pub enum StartupRequest {
    /// Protocol 3.0 startup; carries the raw parameter block.
    Startup(Vec<u8>),
    /// Out-of-band cancellation of another session.
    Cancel(CancelData),
    /// Request to upgrade to SSL.
    SSLRequest,
    /// Request to upgrade to GSS encryption.
    GSSEncRequest,
    /// Password response to an authentication challenge.
    Password(Vec<u8>),
}

/// The mathematical form of a frontend request.
pub enum SpecStartupRequest {
    Startup(Seq<u8>),
    Cancel(int, int),
    SSLRequest,
    GSSEncRequest,
    Password(Seq<u8>),
}

impl View for StartupRequest {
    type V = SpecStartupRequest;

    open spec fn view(&self) -> SpecStartupRequest {
        match self {
            StartupRequest::Startup(p) => SpecStartupRequest::Startup(p@),
            StartupRequest::Cancel(d) => SpecStartupRequest::Cancel(
                d.process_id as int,
                d.secret_key as int,
            ),
            StartupRequest::SSLRequest => SpecStartupRequest::SSLRequest,
            StartupRequest::GSSEncRequest => SpecStartupRequest::GSSEncRequest,
            StartupRequest::Password(p) => SpecStartupRequest::Password(p@),
        }
    }
}

/// What a frame parser yields on a given buffer: more bytes are needed, the
/// frame is malformed, or a request was parsed and so many bytes consumed.
pub enum SpecParse {
    NeedMore,
    Fail(DecodeError),
    Parsed(SpecStartupRequest, int),
}

/// The un-tagged frame grammar, used before the first Startup:
/// `<u32 len><u32 code><body of len-8 bytes>` with `len` in
/// `[MIN_STARTUP_LEN, MAX_STARTUP_LEN]` counting itself, and a body that must
/// be exactly used up by the request the code announces.
pub open spec fn parse_untagged_spec(bytes: Seq<u8>) -> SpecParse {
    if bytes.len() < 4 {
        SpecParse::NeedMore
    } else {
        let len = be_u32_at(bytes, 0);
        if len < MIN_STARTUP_LEN || len > MAX_STARTUP_LEN {
            SpecParse::Fail(DecodeError::InvalidLength)
        } else if bytes.len() < len {
            SpecParse::NeedMore
        } else if len < 8 {
            SpecParse::Fail(DecodeError::UnexpectedEof)
        } else {
            let code = be_u32_at(bytes, 4);
            if code == CODE_STARTUP {
                SpecParse::Parsed(SpecStartupRequest::Startup(bytes.subrange(8, len)), len)
            } else if code == CODE_CANCEL {
                if len < 16 {
                    SpecParse::Fail(DecodeError::UnexpectedEof)
                } else if len > 16 {
                    SpecParse::Fail(DecodeError::TrailingBytes)
                } else {
                    SpecParse::Parsed(
                        SpecStartupRequest::Cancel(be_i32_at(bytes, 8), be_i32_at(bytes, 12)),
                        len,
                    )
                }
            } else if code == CODE_SSL {
                if len == 8 {
                    SpecParse::Parsed(SpecStartupRequest::SSLRequest, len)
                } else {
                    SpecParse::Fail(DecodeError::TrailingBytes)
                }
            } else if code == CODE_GSS {
                if len == 8 {
                    SpecParse::Parsed(SpecStartupRequest::GSSEncRequest, len)
                } else {
                    SpecParse::Fail(DecodeError::TrailingBytes)
                }
            } else {
                SpecParse::Fail(DecodeError::UnknownCode)
            }
        }
    }
}

/// The tagged frame grammar, used once a Startup has been seen:
/// `<u8 tag><u32 len><body of len-4 bytes>` with `len` counting itself but
/// not the tag. Only the password tag `'p'` is accepted; its body is a
/// null-terminated byte string with nothing after the terminator.
pub open spec fn parse_tagged_spec(bytes: Seq<u8>) -> SpecParse {
    if bytes.len() < 5 {
        SpecParse::NeedMore
    } else {
        let len = be_u32_at(bytes, 1);
        if len < MIN_STARTUP_LEN || len > MAX_STARTUP_LEN {
            SpecParse::Fail(DecodeError::InvalidLength)
        } else if bytes.len() < len + 1 {
            SpecParse::NeedMore
        } else if bytes[0] != 112 {
            SpecParse::Fail(DecodeError::UnknownTag)
        } else {
            let body = bytes.subrange(5, len + 1);
            let z = find_zero(body);
            if z < 0 {
                SpecParse::Fail(DecodeError::UnexpectedEof)
            } else if z + 1 < body.len() {
                SpecParse::Fail(DecodeError::TrailingBytes)
            } else {
                SpecParse::Parsed(SpecStartupRequest::Password(body.take(z)), len + 1)
            }
        }
    }
}

/// How an executable parse result realises a `SpecParse` outcome.
pub open spec fn parse_matches(
    r: Result<Option<(StartupRequest, usize)>, DecodeError>,
    sp: SpecParse,
) -> bool {
    match r {
        Ok(None) => sp is NeedMore,
        Ok(Some((req, n))) => sp matches SpecParse::Parsed(sr, m) && req@ == sr && n == m,
        Err(e) => sp == SpecParse::Fail(e),
    }
}

impl StartupRequest {
    /// Parses one un-tagged frame from the front of `buf`, returning the
    /// request and the exact number of bytes it occupies, `None` when the
    /// buffer does not yet hold a whole frame.
    pub fn parse_without_tag(buf: &[u8]) -> (r: Result<
        Option<(StartupRequest, usize)>,
        DecodeError,
    >)
        ensures
            parse_matches(r, parse_untagged_spec(buf@)),
    {
        if buf.len() < 4 {
            return Ok(None);
        }
        let len32 = read_be_u32(buf, 0);
        if len32 < MIN_STARTUP_LEN || len32 > MAX_STARTUP_LEN {
            return Err(DecodeError::InvalidLength);
        }
        let len = len32 as usize;
        if buf.len() < len {
            return Ok(None);
        }
        let mut frame = Buffer {
            bytes: vstd::slice::slice_to_vec(vstd::slice::slice_subrange(buf, 0, len)),
            idx: 4,
        };
        proof {
            assert(frame.bytes@ =~= buf@.take(len as int));
            assert(frame.remaining() =~= buf@.subrange(4, len as int));
        }
        let code = match frame.read_u32_be() {
            Ok(c) => c,
            Err(e) => {
                return Err(e);
            },
        };
        proof {
            if len >= 8 {
                let rem = buf@.subrange(4, len as int);
                assert(code == be_u32_at(buf@, 4)) by {
                    assert(rem[0] == buf@[4] && rem[1] == buf@[5] && rem[2] == buf@[6] && rem[3]
                        == buf@[7]);
                }
            }
        }
        let message = if code == CODE_STARTUP {
            let data = frame.read_all();
            proof {
                assert(data@ =~= buf@.subrange(8, len as int));
            }
            StartupRequest::Startup(data)
        } else if code == CODE_CANCEL {
            let ghost rem8 = frame.remaining();
            let process_id = match frame.read_i32_be() {
                Ok(v) => v,
                Err(e) => {
                    return Err(e);
                },
            };
            let ghost rem12 = frame.remaining();
            let secret_key = match frame.read_i32_be() {
                Ok(v) => v,
                Err(e) => {
                    return Err(e);
                },
            };
            proof {
                assert(process_id == be_i32_at(buf@, 8) && secret_key == be_i32_at(buf@, 12)) by {
                    assert(rem8[0] == buf@[8] && rem8[1] == buf@[9] && rem8[2] == buf@[10]
                        && rem8[3] == buf@[11]);
                    assert(rem12[0] == buf@[12] && rem12[1] == buf@[13] && rem12[2] == buf@[14]
                        && rem12[3] == buf@[15]);
                }
            }
            StartupRequest::Cancel(CancelData { process_id, secret_key })
        } else if code == CODE_SSL {
            StartupRequest::SSLRequest
        } else if code == CODE_GSS {
            StartupRequest::GSSEncRequest
        } else {
            return Err(DecodeError::UnknownCode);
        };
        if !frame.is_empty() {
            return Err(DecodeError::TrailingBytes);
        }
        Ok(Some((message, len)))
    }

    /// Parses one tagged frame from the front of `buf`, returning the request
    /// and the exact number of bytes it occupies (`len` plus the tag byte),
    /// `None` when the buffer does not yet hold a whole frame.
    pub fn parse_with_tag(buf: &[u8]) -> (r: Result<
        Option<(StartupRequest, usize)>,
        DecodeError,
    >)
        ensures
            parse_matches(r, parse_tagged_spec(buf@)),
    {
        if buf.len() < 5 {
            return Ok(None);
        }
        let len32 = read_be_u32(buf, 1);
        if len32 < MIN_STARTUP_LEN || len32 > MAX_STARTUP_LEN {
            return Err(DecodeError::InvalidLength);
        }
        let len = len32 as usize;
        if buf.len() < len + 1 {
            return Ok(None);
        }
        let tag = buf[0];
        if tag != 112 {
            // only the password tag 'p' is legal before AuthenticationOk
            return Err(DecodeError::UnknownTag);
        }
        let mut frame = Buffer {
            bytes: vstd::slice::slice_to_vec(vstd::slice::slice_subrange(buf, 0, len + 1)),
            idx: 5,
        };
        proof {
            assert(frame.bytes@ =~= buf@.take(len + 1 as int));
            assert(frame.remaining() =~= buf@.subrange(5, len + 1 as int));
        }
        let ghost body = buf@.subrange(5, len + 1 as int);
        let passwd = match frame.read_cstr() {
            Ok(p) => p,
            Err(e) => {
                return Err(e);
            },
        };
        proof {
            assert(passwd@ =~= body.take(find_zero(body)));
        }
        if !frame.is_empty() {
            return Err(DecodeError::TrailingBytes);
        }
        proof {
            let z = find_zero(body);
            assert(frame.remaining().len() == body.len() - z - 1);
        }
        Ok(Some((StartupRequest::Password(passwd), len + 1)))
    }
}

/// Whether two byte slices hold the same bytes.
pub fn bytes_eq(a: &[u8], b: &[u8]) -> (r: bool)
    ensures
        r == (a@ == b@),
{
    if a.len() != b.len() {
        proof {
            if a@ == b@ {
                assert(a@.len() == b@.len());
            }
        }
        return false;
    }
    let mut i: usize = 0;
    while i < a.len()
        invariant
            i <= a@.len(),
            a@.len() == b@.len(),
            forall|j: int| 0 <= j < i ==> a@[j] == b@[j],
        decreases a@.len() - i,
    {
        if a[i] != b[i] {
            return false;
        }
        i = i + 1;
    }
    proof {
        assert(a@ =~= b@);
    }
    true
}

/// Whether two strings are the same, decided on their UTF-8 bytes.
pub fn string_keys_eq(a: &str, b: &str) -> (r: bool)
    ensures
        r == (a@ == b@),
{
    let r = bytes_eq(a.as_bytes(), b.as_bytes());
    proof {
        if r {
            encode_utf8_decode_utf8(a@);
            encode_utf8_decode_utf8(b@);
        }
    }
    r
}

/// Relies on String::from_utf8: it succeeds exactly on valid UTF-8 input and
/// the resulting string holds those very bytes.
#[verifier::external_body]
fn string_from_utf8(bytes: Vec<u8>) -> (r: Option<String>)
    ensures
        r is Some <==> valid_utf8(bytes@),
        r matches Some(s) ==> encode_utf8(s@) == bytes@,
{
    String::from_utf8(bytes).ok()
}

/// The parameter block of a Startup message: parameter names mapped to
/// opaque value bytes, names unique, a later occurrence of a name winning.
#[derive(Debug)]
pub struct StartupData {
    pub parameters: Vec<(String, Vec<u8>)>,
}

/// The mapping a parameter list denotes: each name to the value stored with
/// it (names are unique whenever `params_unique` holds).
pub open spec fn params_map(s: Seq<(String, Vec<u8>)>) -> Map<Seq<char>, Seq<u8>>
    decreases s.len(),
{
    if s.len() == 0 {
        Map::empty()
    } else {
        params_map(s.drop_last()).insert(s.last().0@, s.last().1@)
    }
}

/// No parameter name occurs twice.
pub open spec fn params_unique(s: Seq<(String, Vec<u8>)>) -> bool {
    forall|i: int, j: int| 0 <= i < j < s.len() ==> s[i].0@ != s[j].0@
}

/// What `params_map` contains: a name is present exactly when some entry
/// carries it, and with unique names each entry's value is the one mapped.
pub proof fn lemma_params_map(s: Seq<(String, Vec<u8>)>)
    ensures
        forall|k: Seq<char>| #[trigger] params_map(s).contains_key(k) <==> exists|i: int|
            0 <= i < s.len() && s[i].0@ == k,
        params_unique(s) ==> forall|i: int| 0 <= i < s.len() ==> params_map(s).contains_key(
            #[trigger] s[i].0@,
        ) && params_map(s)[s[i].0@] == s[i].1@,
    decreases s.len(),
{
    if s.len() > 0 {
        lemma_params_map(s.drop_last());
        assert(params_map(s) == params_map(s.drop_last()).insert(s.last().0@, s.last().1@));
        assert forall|k: Seq<char>| #[trigger] params_map(s).contains_key(k) implies exists|i: int|
            0 <= i < s.len() && s[i].0@ == k by {
            if k == s.last().0@ {
                assert(0 <= s.len() - 1 < s.len() && s[s.len() - 1].0@ == k);
            } else {
                assert(params_map(s.drop_last()).contains_key(k));
                let i = choose|i: int| 0 <= i < s.drop_last().len() && s.drop_last()[i].0@ == k;
                assert(s[i].0@ == k);
            }
        }
        assert forall|k: Seq<char>| (exists|i: int| 0 <= i < s.len() && s[i].0@ == k)
            implies #[trigger] params_map(s).contains_key(k) by {
            let i = choose|i: int| 0 <= i < s.len() && s[i].0@ == k;
            if i < s.len() - 1 {
                assert(s.drop_last()[i].0@ == k);
            }
        }
        if params_unique(s) {
            assert forall|i: int| 0 <= i < s.len() implies params_map(s).contains_key(
                #[trigger] s[i].0@,
            ) && params_map(s)[s[i].0@] == s[i].1@ by {
                if i < s.len() - 1 {
                    assert(s.drop_last()[i] == s[i]);
                    assert(s[i].0@ != s.last().0@);
                }
            }
        }
    }
}

/// `params_map` after appending one entry.
pub proof fn lemma_params_map_push(s: Seq<(String, Vec<u8>)>, p: (String, Vec<u8>))
    ensures
        params_map(s.push(p)) == params_map(s).insert(p.0@, p.1@),
{
    assert(s.push(p).drop_last() =~= s);
    assert(s.push(p).last() == p);
}

/// The parameter mapping a raw Startup payload denotes: alternating
/// null-terminated names and values until an empty name or until the bytes
/// run out mid-pair; a pair whose name is not valid UTF-8 is dropped; a
/// later occurrence of a name wins.
pub open spec fn spec_startup_params(bytes: Seq<u8>) -> Map<Seq<char>, Seq<u8>>
    decreases bytes.len(),
    via spec_startup_params_decreases
{
    let z = find_zero(bytes);
    if z <= 0 {
        Map::empty()
    } else {
        let key = bytes.take(z);
        let rest = bytes.skip(z + 1);
        let z2 = find_zero(rest);
        if z2 < 0 {
            Map::empty()
        } else {
            let tail = spec_startup_params(rest.skip(z2 + 1));
            if valid_utf8(key) {
                if tail.contains_key(decode_utf8(key)) {
                    tail
                } else {
                    tail.insert(decode_utf8(key), rest.take(z2))
                }
            } else {
                tail
            }
        }
    }
}

#[via_fn]
proof fn spec_startup_params_decreases(bytes: Seq<u8>) {
    crate::wire::lemma_find_zero(bytes);
    let z = find_zero(bytes);
    if z > 0 {
        crate::wire::lemma_find_zero(bytes.skip(z + 1));
    }
}

impl StartupData {
    /// Parameter names are unique.
    pub open spec fn wf(self) -> bool {
        params_unique(self.parameters@)
    }

    /// The mapping from parameter names to value bytes.
    pub open spec fn spec_params(self) -> Map<Seq<char>, Seq<u8>> {
        params_map(self.parameters@)
    }

    /// Parses a raw Startup payload into its parameter mapping: alternating
    /// null-terminated names and values until an empty name, a missing
    /// terminator ending the scan; pairs with non-UTF-8 names are dropped,
    /// and a later occurrence of a name wins.
    pub fn parse(raw: Vec<u8>) -> (r: StartupData)
        ensures
            r.wf(),
            r.spec_params() == spec_startup_params(raw@),
    {
        let ghost all = raw@;
        let mut buf = Buffer { bytes: raw, idx: 0 };
        let mut parameters: Vec<(String, Vec<u8>)> = Vec::new();
        proof {
            assert(buf.remaining() =~= all);
            assert(params_map(parameters@).union_prefer_right(spec_startup_params(all))
                =~= spec_startup_params(all));
        }
        loop
            invariant_except_break
                params_map(parameters@).union_prefer_right(spec_startup_params(buf.remaining()))
                    == spec_startup_params(all),
            invariant
                buf.wf(),
                buf.bytes@ == all,
                params_unique(parameters@),
            ensures
                params_unique(parameters@),
                params_map(parameters@) == spec_startup_params(all),
            decreases buf.remaining().len(),
        {
            let ghost rem0 = buf.remaining();
            let ghost z = find_zero(rem0);
            let key_bytes = match buf.read_cstr() {
                Ok(k) => k,
                Err(_) => {
                    proof {
                        lemma_union_empty(params_map(parameters@), spec_startup_params(rem0));
                    }
                    break ;
                },
            };
            if key_bytes.is_empty() {
                proof {
                    crate::wire::lemma_find_zero(rem0);
                    assert(z == 0);
                    lemma_union_empty(params_map(parameters@), spec_startup_params(rem0));
                }
                break ;
            }
            proof {
                crate::wire::lemma_find_zero(rem0);
                assert(z > 0);
            }
            let ghost rest = rem0.skip(z + 1);
            let ghost z2 = find_zero(rest);
            proof {
                assert(buf.remaining() =~= rest);
            }
            let value = match buf.read_cstr() {
                Ok(v) => v,
                Err(_) => {
                    proof {
                        assert(z2 < 0);
                        lemma_union_empty(params_map(parameters@), spec_startup_params(rem0));
                    }
                    break ;
                },
            };
            let ghost rem2 = rest.skip(z2 + 1);
            proof {
                assert(buf.remaining() =~= rem2);
                assert(key_bytes@ == rem0.take(z) && value@ == rest.take(z2));
            }
            let ghost before = params_map(parameters@);
            match string_from_utf8(key_bytes) {
                Some(key) => {
                    let ghost dk = key@;
                    proof {
                        encode_utf8_decode_utf8(key@);
                        assert(dk == decode_utf8(rem0.take(z)));
                    }
                    insert_param(&mut parameters, key, value);
                    proof {
                        let tail = spec_startup_params(rem2);
                        assert(params_map(parameters@) == before.insert(dk, rest.take(z2)));
                        assert(params_map(parameters@).union_prefer_right(tail)
                            =~= before.union_prefer_right(spec_startup_params(rem0)));
                    }
                },
                None => {
                    proof {
                        assert(spec_startup_params(rem0) == spec_startup_params(rem2));
                    }
                },
            }
        }
        StartupData { parameters }
    }

    /// Looks a parameter name up, returning a reference to its value bytes.
    pub fn get_parameter<'a>(&'a self, key: &str) -> (r: Option<&'a Vec<u8>>)
        requires
            self.wf(),
        ensures
            match r {
                Some(v) => self.spec_params().contains_key(key@) && v@
                    == self.spec_params()[key@],
                None => !self.spec_params().contains_key(key@),
            },
    {
        let mut i: usize = 0;
        while i < self.parameters.len()
            invariant
                i <= self.parameters@.len(),
                self.wf(),
                forall|j: int| 0 <= j < i ==> self.parameters@[j].0@ != key@,
            decreases self.parameters@.len() - i,
        {
            if string_keys_eq(self.parameters[i].0.as_str(), key) {
                proof {
                    lemma_params_map(self.parameters@);
                    assert(self.parameters@[i as int].0@ == key@);
                }
                return Some(&self.parameters[i].1);
            }
            i = i + 1;
        }
        proof {
            lemma_params_map(self.parameters@);
            if self.spec_params().contains_key(key@) {
                let j = choose|j: int|
                    0 <= j < self.parameters@.len() && self.parameters@[j].0@ == key@;
            }
        }
        None
    }
}

/// A backend response sent to the client during the startup phase.
#[derive(Debug)]
pub enum StartupResponse {
    AuthenticationOk,
    AuthenticationMD5Password { salt: [u8; 4] },
    /// A single byte: `'S'` when SSL is accepted, `'N'` when refused.
    SSLResponse(bool),
    /// A single byte: `'G'` when GSS encryption is accepted, `'N'` when refused.
    GSSEncResponse(bool),
    /// A fatal-severity error report.
    ErrorResponse(String),
    ParameterStatus { key: String, value: Vec<u8> },
    /// Transaction status is always idle (`'I'`) at the end of startup.
    ReadyForQuery,
}

/// The exact wire form of a response. Byte values name ASCII characters:
/// 82 `'R'`, 83 `'S'`, 78 `'N'`, 71 `'G'`, 69 `'E'`, 77 `'M'`, 90 `'Z'`,
/// 73 `'I'`, and 70 65 84 65 76 spell `"FATAL"`. The second u32(0) after an
/// MD5 salt is kept for byte-exact compatibility with the existing peer.
pub open spec fn response_bytes(r: StartupResponse) -> Seq<u8> {
    match r {
        StartupResponse::AuthenticationOk => seq![82u8] + u32_be_bytes(8) + u32_be_bytes(0),
        StartupResponse::AuthenticationMD5Password { salt } => seq![82u8] + u32_be_bytes(12)
            + salt@ + u32_be_bytes(0),
        StartupResponse::SSLResponse(ok) => if ok {
            seq![83u8]
        } else {
            seq![78u8]
        },
        StartupResponse::GSSEncResponse(ok) => if ok {
            seq![71u8]
        } else {
            seq![78u8]
        },
        StartupResponse::ErrorResponse(msg) => {
            let m = encode_utf8(msg@);
            seq![69u8] + u32_be_bytes(m.len() + 14 as int) + seq![83u8, 70u8, 65u8, 84u8, 65u8, 76u8, 0u8, 77u8]
                + m + seq![0u8, 0u8]
        },
        StartupResponse::ParameterStatus { key, value } => {
            let k = encode_utf8(key@);
            seq![83u8] + u32_be_bytes(k.len() + value@.len() + 6 as int) + k + seq![0u8] + value@
                + seq![0u8]
        },
        StartupResponse::ReadyForQuery => seq![90u8] + u32_be_bytes(5) + seq![73u8],
    }
}

impl StartupResponse {
    /// The length field of a variable-length response fits in a u32.
    pub open spec fn wf(self) -> bool {
        match self {
            StartupResponse::ErrorResponse(msg) => encode_utf8(msg@).len() + 14 <= 0xFFFFFFFF,
            StartupResponse::ParameterStatus { key, value } => encode_utf8(key@).len()
                + value@.len() + 6 <= 0xFFFFFFFF,
            _ => true,
        }
    }

    /// Appends the wire form of the response to `dst`.
    pub fn encode(&self, dst: &mut Vec<u8>)
        requires
            self.wf(),
        ensures
            final(dst)@ == old(dst)@ + response_bytes(*self),
    {
        match self {
            StartupResponse::AuthenticationOk => {
                dst.push(82);  // 'R'
                push_u32_be(dst, 8);
                push_u32_be(dst, 0);
            },
            StartupResponse::AuthenticationMD5Password { salt } => {
                dst.push(82);  // 'R'
                push_u32_be(dst, 12);
                dst.push(salt[0]);
                dst.push(salt[1]);
                dst.push(salt[2]);
                dst.push(salt[3]);
                push_u32_be(dst, 0);
            },
            StartupResponse::SSLResponse(ok) => {
                dst.push(if *ok {
                    83  // 'S'
                } else {
                    78  // 'N'
                });
            },
            StartupResponse::GSSEncResponse(ok) => {
                dst.push(if *ok {
                    71  // 'G'
                } else {
                    78  // 'N'
                });
            },
            StartupResponse::ErrorResponse(msg) => {
                let msg_bytes = msg.as_str().as_bytes();
                let len: u64 = msg_bytes.len() as u64 + 14;
                dst.push(69);  // 'E'
                push_u32_be(dst, len as u32);
                dst.push(83);  // 'S'
                dst.push(70);  // 'F'
                dst.push(65);  // 'A'
                dst.push(84);  // 'T'
                dst.push(65);  // 'A'
                dst.push(76);  // 'L'
                dst.push(0);
                dst.push(77);  // 'M'
                dst.extend_from_slice(msg_bytes);
                dst.push(0);
                dst.push(0);
            },
            StartupResponse::ParameterStatus { key, value } => {
                let key_bytes = key.as_str().as_bytes();
                let len: u64 = key_bytes.len() as u64 + value.len() as u64 + 6;
                dst.push(83);  // 'S'
                push_u32_be(dst, len as u32);
                dst.extend_from_slice(key_bytes);
                dst.push(0);
                dst.extend_from_slice(value.as_slice());
                dst.push(0);
            },
            StartupResponse::ReadyForQuery => {
                dst.push(90);  // 'Z'
                push_u32_be(dst, 5);
                dst.push(73);  // 'I'
            },
        }
        proof {
            assert(dst@ =~= old(dst)@ + response_bytes(*self));
        }
    }
}

/// Union with an empty right side changes nothing.
proof fn lemma_union_empty(m: Map<Seq<char>, Seq<u8>>, e: Map<Seq<char>, Seq<u8>>)
    requires
        e == Map::<Seq<char>, Seq<u8>>::empty(),
    ensures
        m.union_prefer_right(e) == m,
{
    assert(m.union_prefer_right(e) =~= m);
}

/// Stores `(key, value)` in the list, replacing the entry of an equal key if
/// one is present, so that a later occurrence of a name wins.
fn insert_param(params: &mut Vec<(String, Vec<u8>)>, key: String, value: Vec<u8>)
    requires
        params_unique(old(params)@),
    ensures
        params_unique(final(params)@),
        params_map(final(params)@) == params_map(old(params)@).insert(key@, value@),
{
    let ghost orig = params@;
    let mut i: usize = 0;
    loop
        invariant_except_break
            i <= params@.len(),
            params@ == orig,
        invariant
            params_unique(orig),
            forall|j: int| 0 <= j < i ==> orig[j].0@ != key@,
        ensures
            params_unique(params@),
            forall|j: int| 0 <= j < params@.len() ==> params@[j].0@ != key@,
            params_map(params@).insert(key@, value@) == params_map(orig).insert(key@, value@),
        decreases params@.len() - i,
    {
        if i == params.len() {
            break ;
        }
        if string_keys_eq(params[i].0.as_str(), key.as_str()) {
            let ghost removed = orig.remove(i as int);
            params.remove(i);
            proof {
                assert forall|a: int, b: int| 0 <= a < b < removed.len() implies removed[a].0@
                    != removed[b].0@ by {
                    let a2: int = if a < i { a } else { a + 1 };
                    let b2: int = if b < i { b } else { b + 1 };
                    assert(removed[a] == orig[a2] && removed[b] == orig[b2]);
                }
                assert forall|j: int| 0 <= j < removed.len() implies removed[j].0@ != key@ by {
                    let j2: int = if j < i { j } else { j + 1 };
                    assert(removed[j] == orig[j2]);
                    assert(orig[i as int].0@ == key@);
                }
                lemma_params_map(orig);
                lemma_params_map(removed);
                assert(params_map(removed).insert(key@, value@) =~= params_map(orig).insert(
                    key@,
                    value@,
                )) by {
                    assert forall|k: Seq<char>|
                        params_map(removed).contains_key(k) && k != key@ implies params_map(
                        orig,
                    ).contains_key(k) && params_map(orig)[k] == params_map(removed)[k] by {
                        let j = choose|j: int| 0 <= j < removed.len() && removed[j].0@ == k;
                        let j2: int = if j < i { j } else { j + 1 };
                        assert(orig[j2] == removed[j]);
                    }
                    assert forall|k: Seq<char>|
                        params_map(orig).contains_key(k) && k != key@ implies params_map(
                        removed,
                    ).contains_key(k) && params_map(removed)[k] == params_map(orig)[k] by {
                        let j = choose|j: int| 0 <= j < orig.len() && orig[j].0@ == k;
                        assert(j != i);
                        let j2: int = if j < i { j } else { j - 1 };
                        assert(removed[j2] == orig[j]);
                    }
                }
            }
            break ;
        }
        i = i + 1;
    }
    let ghost before = params@;
    let pair = (key, value);
    let ghost p = pair;
    params.push(pair);
    proof {
        lemma_params_map_push(before, p);
        assert forall|a: int, b: int| 0 <= a < b < params@.len() implies params@[a].0@
            != params@[b].0@ by {
            if b < before.len() {
                assert(params_unique(before));
            } else {
                assert(params@[b].0@ == key@);
            }
        }
    }
}

} // verus!

