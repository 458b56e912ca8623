//! Per-connection orchestration decisions: what a terminal startup event
//! means, how a routing decision and an authentication outcome are answered,
//! the handshake replay sent to an accepted client, and the lookup a cancel
//! request triggers. The surrounding I/O loop performs these decisions'
//! actions; everything decided here is plain data.

use vstd::prelude::*;

use crate::auth::AuthMethod;
use crate::codec::{codec_parse_spec, drive_spec, SpecDrive, SpecStartupInfo, StartupInfo};
use crate::registry::{CancelKey, CancelRegistry};
use crate::startup::{
    params_unique, response_bytes, spec_startup_params, CancelData, SpecParse, StartupData,
    StartupResponse,
};
use vstd::seq_lib::group_to_multiset_ensures;
use vstd::string::StringExecFns;
use vstd::utf8::{encode_scalar, encode_utf8};

verus! {

/// Why an incoming connection is refused by the routing policy.
#[derive(Clone, Copy, Debug, PartialEq, Eq, Structural)]
pub enum RejectConn {
    UnknownDatabase,
    UnknownUser,
    InternalError,
}

/// How an accepted connection is to be proxied: the client authentication
/// to run, and the TLS factory and backend configuration the connector
/// needs. The latter two are opaque to this library.
pub struct AcceptConn<T, C> {
    /// How to authenticate the client.
    pub auth_method: AuthMethod,
    /// TLS configuration to use.
    pub tls: T,
    /// Backend configuration to use.
    pub backend_config: C,
}

/// The decision taken on a terminal startup event. A cancel request is
/// answered by firing the registered handle, never by bytes to the
/// requesting client; a startup is parsed and handed to the routing policy.
#[derive(Debug)]
pub enum StartupDecision {
    /// Fire the handle registered under this key, if any, then close
    /// without replying.
    HandleCancel(CancelKey),
    /// Ask the routing policy about this parsed startup.
    Route(StartupData),
}

/// Turns a terminal startup event into an orchestration decision.
pub fn on_startup_info(info: StartupInfo) -> (r: StartupDecision)
    ensures
        info@ matches SpecStartupInfo::Cancel(pid, key) ==> r matches
            StartupDecision::HandleCancel(k) && k.process_id == pid && k.secret_key == key,
        info@ matches SpecStartupInfo::Startup(raw) ==> r matches StartupDecision::Route(d)
            && d.wf() && d.spec_params() == spec_startup_params(raw),
{
    match info {
        StartupInfo::Cancel(data) => StartupDecision::HandleCancel(
            CancelKey { process_id: data.process_id, secret_key: data.secret_key },
        ),
        StartupInfo::Startup(raw) => StartupDecision::Route(StartupData::parse(raw)),
    }
}

/// Looks up the handle a cancel request names. An absent key yields
/// nothing: the request is then dropped silently.
pub fn handle_cancel<'a, H>(registry: &'a CancelRegistry<H>, data: &CancelData) -> (r: Option<
    &'a H,
>)
    requires
        registry.wf(),
    ensures
        ({
            let key = (CancelKey {
                process_id: data.process_id,
                secret_key: data.secret_key,
            });
            match r {
                Some(h) => registry.spec_map().contains_key(key) && *h
                    == registry.spec_map()[key],
                None => !registry.spec_map().contains_key(key),
            }
        }),
{
    registry.lookup(CancelKey { process_id: data.process_id, secret_key: data.secret_key })
}

/// No reply is ever made to a cancel request: when the reader's next frame
/// is a cancel, the reader ends there and sends nothing.
pub proof fn lemma_no_reply_to_cancel(seen: bool, bytes: Seq<u8>)
    ensures
        (codec_parse_spec(seen, bytes) matches SpecParse::Parsed(req, n) && req is Cancel) ==> (
        drive_spec(seen, bytes) matches SpecDrive::Done { info, seen: s, rest, sent }
            && info is Cancel && sent == Seq::<u8>::empty()),
{
}

/// Each encoded character occupies at most four bytes.
proof fn lemma_encode_utf8_len(chars: Seq<char>)
    ensures
        encode_utf8(chars).len() <= 4 * chars.len(),
    decreases chars.len(),
{
    if chars.len() > 0 {
        assert(encode_scalar(chars[0] as u32).len() <= 4);
        lemma_encode_utf8_len(chars.drop_first());
    }
}

/// The error report sent when the routing policy refuses a connection.
pub fn reject_response() -> (r: StartupResponse)
    ensures
        r matches StartupResponse::ErrorResponse(m) && m@ == "connection rejected"@,
        r.wf(),
{
    let text = String::from_str("connection rejected");
    proof {
        reveal_strlit("connection rejected");
        lemma_encode_utf8_len(text@);
    }
    StartupResponse::ErrorResponse(text)
}

/// The error report sent when client authentication fails.
pub fn auth_failed_response() -> (r: StartupResponse)
    ensures
        r matches StartupResponse::ErrorResponse(m) && m@ == "authentication failed"@,
        r.wf(),
{
    let text = String::from_str("authentication failed");
    proof {
        reveal_strlit("authentication failed");
        lemma_encode_utf8_len(text@);
    }
    StartupResponse::ErrorResponse(text)
}

/// An error report with a caller-supplied text, such as the reason a
/// backend connection failed; refused only when the text is too long for
/// the frame's length field.
pub fn error_response(text: String) -> (r: Option<StartupResponse>)
    ensures
        r matches Some(resp) ==> resp matches StartupResponse::ErrorResponse(m) && m@ == text@
            && resp.wf(),
        r is None <==> encode_utf8(text@).len() + 14 > 0xFFFFFFFF,
{
    let byte_len = text.as_str().as_bytes().len();
    if byte_len as u64 <= 0xFFFFFFFFu64 - 14 {
        Some(StartupResponse::ErrorResponse(text))
    } else {
        None
    }
}

/// The byte ordering of parameter keys: lexicographic on the UTF-8 bytes,
/// which coincides with the ordering of the strings themselves.
pub open spec fn bytes_le(a: Seq<u8>, b: Seq<u8>) -> bool
    decreases a.len(),
{
    if a.len() == 0 {
        true
    } else if b.len() == 0 {
        false
    } else if a[0] < b[0] {
        true
    } else if a[0] > b[0] {
        false
    } else {
        bytes_le(a.skip(1), b.skip(1))
    }
}

/// Any two byte sequences compare.
pub proof fn lemma_bytes_le_total(a: Seq<u8>, b: Seq<u8>)
    ensures
        bytes_le(a, b) || bytes_le(b, a),
    decreases a.len(),
{
    if a.len() > 0 && b.len() > 0 && a[0] == b[0] {
        lemma_bytes_le_total(a.skip(1), b.skip(1));
    }
}

/// The ordering is transitive.
pub proof fn lemma_bytes_le_trans(a: Seq<u8>, b: Seq<u8>, c: Seq<u8>)
    requires
        bytes_le(a, b),
        bytes_le(b, c),
    ensures
        bytes_le(a, c),
    decreases a.len(),
{
    if a.len() > 0 && b.len() > 0 && c.len() > 0 && a[0] == b[0] && b[0] == c[0] {
        lemma_bytes_le_trans(a.skip(1), b.skip(1), c.skip(1));
    }
}

/// Compares two byte slices lexicographically.
pub fn bytes_le_exec(a: &[u8], b: &[u8]) -> (r: bool)
    ensures
        r == bytes_le(a@, b@),
{
    let mut i: usize = 0;
    proof {
        assert(a@.skip(0) =~= a@);
        assert(b@.skip(0) =~= b@);
    }
    loop
        invariant
            i <= a@.len(),
            i <= b@.len(),
            bytes_le(a@, b@) == bytes_le(a@.skip(i as int), b@.skip(i as int)),
        decreases a@.len() - i,
    {
        if i == a.len() {
            return true;
        }
        if i == b.len() {
            return false;
        }
        let x = a[i];
        let y = b[i];
        if x < y {
            return true;
        }
        if x > y {
            return false;
        }
        proof {
            assert(a@.skip(i as int).skip(1) =~= a@.skip(i + 1 as int));
            assert(b@.skip(i as int).skip(1) =~= b@.skip(i + 1 as int));
        }
        i = i + 1;
    }
}

/// The key bytes a parameter sorts by.
pub open spec fn param_key_bytes(p: (String, Vec<u8>)) -> Seq<u8> {
    encode_utf8(p.0@)
}

/// Whether two parameter keys are in order.
pub fn param_le(a: &(String, Vec<u8>), b: &(String, Vec<u8>)) -> (r: bool)
    ensures
        r == bytes_le(param_key_bytes(*a), param_key_bytes(*b)),
{
    bytes_le_exec(a.0.as_str().as_bytes(), b.0.as_str().as_bytes())
}

/// Keys appear in ascending order.
pub open spec fn params_sorted(s: Seq<(String, Vec<u8>)>) -> bool {
    forall|i: int, j: int| 0 <= i < j < s.len() ==> bytes_le(
        param_key_bytes(s[i]),
        param_key_bytes(s[j]),
    )
}

/// Places one parameter into a sorted list whose keys all differ from its
/// own, keeping the list sorted.
fn insert_sorted(out: &mut Vec<(String, Vec<u8>)>, x: (String, Vec<u8>))
    requires
        params_sorted(old(out)@),
        params_unique(old(out)@),
        forall|i: int| 0 <= i < old(out)@.len() ==> old(out)@[i].0@ != x.0@,
    ensures
        params_sorted(final(out)@),
        params_unique(final(out)@),
        final(out)@.to_multiset() == old(out)@.to_multiset().insert(x),
        forall|i: int| 0 <= i < final(out)@.len() ==> final(out)@[i].0@ == x.0@ || exists|k: int|
            0 <= k < old(out)@.len() && old(out)@[k].0@ == #[trigger] final(out)@[i].0@,
{
    broadcast use group_to_multiset_ensures;

    let ghost out0 = out@;
    let ghost gx = x;
    let mut j: usize = 0;
    #[verifier::loop_isolation(false)]
    while j < out.len() && param_le(&out[j], &x)
        invariant
            j <= out@.len(),
            out@ == out0,
            forall|k: int| 0 <= k < j ==> bytes_le(param_key_bytes(out0[k]), param_key_bytes(gx)),
        decreases out@.len() - j,
    {
        j = j + 1;
    }
    proof {
        if j < out0.len() {
            lemma_bytes_le_total(param_key_bytes(out0[j as int]), param_key_bytes(gx));
        }
        assert forall|k: int| j <= k < out0.len() implies bytes_le(
            param_key_bytes(gx),
            param_key_bytes(out0[k]),
        ) by {
            if k > j {
                lemma_bytes_le_trans(
                    param_key_bytes(gx),
                    param_key_bytes(out0[j as int]),
                    param_key_bytes(out0[k]),
                );
            }
        }
    }
    out.insert(j, x);
    proof {
        assert(out@.remove(j as int) =~= out0);
        assert(out@[j as int] == gx);
        assert(out@.to_multiset().count(gx) > 0) by {
            assert(out@.contains(gx));
        }
        assert(out@.to_multiset() =~= out0.to_multiset().insert(gx));
        assert forall|a: int, b: int| 0 <= a < b < out@.len() implies bytes_le(
            param_key_bytes(out@[a]),
            param_key_bytes(out@[b]),
        ) && out@[a].0@ != out@[b].0@ by {
            let a0: int = if a < j { a } else { a - 1 };
            let b0: int = if b < j { b } else { b - 1 };
            if a != j {
                assert(out@[a] == out0[a0]);
            }
            if b != j {
                assert(out@[b] == out0[b0]);
            }
        }
        assert forall|i: int| 0 <= i < out@.len() implies out@[i].0@ == gx.0@ || exists|k: int|
            0 <= k < out0.len() && out0[k].0@ == #[trigger] out@[i].0@ by {
            if i != j {
                let i0: int = if i < j { i } else { i - 1 };
                assert(out@[i] == out0[i0]);
            }
        }
    }
}

/// Sorts parameters ascending by key. The result holds exactly the input
/// pairs, in ascending key order, each key once.
pub fn sort_params(v: Vec<(String, Vec<u8>)>) -> (r: Vec<(String, Vec<u8>)>)
    requires
        params_unique(v@),
    ensures
        r@.to_multiset() == v@.to_multiset(),
        params_sorted(r@),
        params_unique(r@),
{
    broadcast use group_to_multiset_ensures;

    let ghost orig = v@;
    let mut rest = v;
    let mut out: Vec<(String, Vec<u8>)> = Vec::new();
    proof {
        assert(out@.to_multiset().add(rest@.to_multiset()) =~= orig.to_multiset());
    }
    #[verifier::loop_isolation(false)]
    loop
        invariant
            out@.to_multiset().add(rest@.to_multiset()) == orig.to_multiset(),
            params_sorted(out@),
            params_unique(out@),
            params_unique(rest@),
            forall|i: int, j: int|
                0 <= i < out@.len() && 0 <= j < rest@.len() ==> out@[i].0@ != rest@[j].0@,
        decreases rest@.len(),
    {
        if rest.len() == 0 {
            break ;
        }
        let ghost rest0 = rest@;
        let x = match rest.pop() {
            Some(x) => x,
            None => {
                break ;
            },
        };
        proof {
            assert(rest@.push(x) =~= rest0);
            assert(rest0.to_multiset() =~= rest@.to_multiset().insert(x));
            // the popped key differs from every key already placed and
            // from every key still waiting
            assert(forall|i: int| 0 <= i < out@.len() ==> out@[i].0@ != x.0@);
            assert(forall|j: int| 0 <= j < rest@.len() ==> rest@[j].0@ != x.0@);
        }
        insert_sorted(&mut out, x);
        proof {
            assert(out@.to_multiset().add(rest@.to_multiset()) =~= orig.to_multiset());
        }
    }
    out
}

/// The pair a ParameterStatus response carries.
pub open spec fn resp_pair(r: StartupResponse) -> (String, Vec<u8>) {
    match r {
        StartupResponse::ParameterStatus { key, value } => (key, value),
        _ => arbitrary(),
    }
}

/// The ParameterStatus response for one backend parameter.
pub open spec fn param_status(p: (String, Vec<u8>)) -> StartupResponse {
    StartupResponse::ParameterStatus { key: p.0, value: p.1 }
}

/// The handshake replay an accepted client receives: `AuthenticationOk`,
/// one `ParameterStatus` per backend parameter in ascending key order with
/// no key twice, then `ReadyForQuery`. The length bound on each parameter
/// is what its frame's length field can carry.
#[verifier::rlimit(100)]
#[verifier::spinoff_prover]
pub fn handshake_replay(parameters: Vec<(String, Vec<u8>)>) -> (r: Vec<StartupResponse>)
    requires
        params_unique(parameters@),
        forall|i: int| 0 <= i < parameters@.len() ==> encode_utf8(#[trigger] parameters@[i].0@).len()
            + parameters@[i].1@.len() + 6 <= 0xFFFFFFFF,
    ensures
        r@.len() == parameters@.len() + 2,
        r@[0] == StartupResponse::AuthenticationOk,
        r@[r@.len() - 1] == StartupResponse::ReadyForQuery,
        forall|i: int| 0 <= i < r@.len() ==> #[trigger] r@[i].wf(),
        forall|i: int| 1 <= i < r@.len() - 1 ==> r@[i] is ParameterStatus,
        Seq::new(parameters@.len(), |i: int| resp_pair(r@[i + 1])).to_multiset()
            == parameters@.to_multiset(),
        forall|i: int, j: int| 1 <= i < j < r@.len() - 1 ==> bytes_le(
            param_key_bytes(resp_pair(r@[i])),
            param_key_bytes(resp_pair(r@[j])),
        ) && resp_pair(r@[i]).0@ != resp_pair(r@[j]).0@,
{
    broadcast use group_to_multiset_ensures;

    let ghost input = parameters@;
    let mut rest = sort_params(parameters);
    let ghost sorted0 = rest@;
    let n = rest.len();
    proof {
        assert forall|i: int| 0 <= i < sorted0.len() implies encode_utf8(
            #[trigger] sorted0[i].0@,
        ).len() + sorted0[i].1@.len() + 6 <= 0xFFFFFFFF by {
            assert(sorted0.contains(sorted0[i]));
            assert(sorted0.to_multiset().count(sorted0[i]) > 0);
            assert(input.contains(sorted0[i]));
            let k = choose|k: int| 0 <= k < input.len() && input[k] == sorted0[i];
            assert(encode_utf8(input[k].0@).len() + input[k].1@.len() + 6 <= 0xFFFFFFFF);
        }
    }
    let mut r: Vec<StartupResponse> = Vec::new();
    r.push(StartupResponse::AuthenticationOk);
    r.push(StartupResponse::ReadyForQuery);
    proof {
        assert(rest@ =~= sorted0.take(rest@.len() as int));
    }
    #[verifier::loop_isolation(false)]
    loop
        invariant
            rest@ == sorted0.take(rest@.len() as int),
            rest@.len() <= sorted0.len() == n,
            r@.len() == n - rest@.len() + 2,
            r@[0] == StartupResponse::AuthenticationOk,
            r@[r@.len() - 1] == StartupResponse::ReadyForQuery,
            forall|i: int| 0 <= i < n - rest@.len() ==> (#[trigger] r@[i + 1]) == param_status(
                sorted0[rest@.len() + i],
            ),
        decreases rest@.len(),
    {
        if rest.len() == 0 {
            break ;
        }
        let ghost r0 = r@;
        let x = rest.pop().unwrap();
        proof {
            assert(rest@ =~= sorted0.take(rest@.len() as int));
            assert(x == sorted0[rest@.len() as int]);
        }
        let ghost gx = x;
        r.insert(1, StartupResponse::ParameterStatus { key: x.0, value: x.1 });
        proof {
            assert(r@[1] == param_status(gx));
            assert forall|i: int| 0 <= i < n - rest@.len() implies (#[trigger] r@[i + 1])
                == param_status(sorted0[rest@.len() + i]) by {
                if i > 0 {
                    assert(r@[i + 1] == r0[i]);
                    assert(r0[i] == r0[(i - 1) + 1]);
                }
            }
        }
    }
    proof {
        assert(rest@.len() == 0);
        assert(input.to_multiset().len() == input.len());
        assert(sorted0.to_multiset().len() == sorted0.len());
        assert(input.len() == sorted0.len());
        assert(Seq::new(input.len(), |i: int| resp_pair(r@[i + 1])) =~= sorted0) by {
            assert forall|i: int| 0 <= i < input.len() implies resp_pair(r@[i + 1])
                == sorted0[i] by {
                assert(r@[i + 1] == param_status(sorted0[i]));
                let p = sorted0[i];
                assert((p.0, p.1) == p);
            }
        }
        assert forall|i: int| 0 <= i < r@.len() implies #[trigger] r@[i].wf() by {
            if 1 <= i < r@.len() - 1 {
                assert(r@[i] == param_status(sorted0[i - 1]));
            }
        }
        assert forall|i: int| 1 <= i < r@.len() - 1 implies (#[trigger] r@[i]) is
            ParameterStatus by {
            assert(r@[i] == param_status(sorted0[i - 1]));
        }
        assert forall|i: int, j: int| 1 <= i < j < r@.len() - 1 implies bytes_le(
            param_key_bytes(resp_pair(r@[i])),
            param_key_bytes(resp_pair(r@[j])),
        ) && resp_pair(r@[i]).0@ != resp_pair(r@[j]).0@ by {
            assert(r@[i] == param_status(sorted0[i - 1]) && r@[j] == param_status(
                sorted0[j - 1],
            ));
            let p = sorted0[i - 1];
            let q = sorted0[j - 1];
            assert((p.0, p.1) == p && (q.0, q.1) == q);
            assert(bytes_le(param_key_bytes(sorted0[i - 1]), param_key_bytes(sorted0[j - 1])));
            assert(sorted0[i - 1].0@ != sorted0[j - 1].0@);
        }
    }
    r
}

/// The concatenated wire form of a batch of responses, in order.
pub open spec fn responses_bytes(s: Seq<StartupResponse>) -> Seq<u8>
    decreases s.len(),
{
    if s.len() == 0 {
        Seq::empty()
    } else {
        responses_bytes(s.drop_last()) + response_bytes(s.last())
    }
}

/// Encodes a batch of responses onto `dst`, in order: the batch is framed
/// once and flushed by the caller after its last message.
pub fn encode_responses(rs: &Vec<StartupResponse>, dst: &mut Vec<u8>)
    requires
        forall|i: int| 0 <= i < rs@.len() ==> #[trigger] rs@[i].wf(),
    ensures
        final(dst)@ == old(dst)@ + responses_bytes(rs@),
{
    let ghost base = dst@;
    let mut i: usize = 0;
    proof {
        assert(dst@ =~= base + responses_bytes(rs@.take(0)));
    }
    #[verifier::loop_isolation(false)]
    while i < rs.len()
        invariant
            i <= rs@.len(),
            dst@ == base + responses_bytes(rs@.take(i as int)),
        decreases rs@.len() - i,
    {
        let resp = &rs[i];
        resp.encode(dst);
        proof {
            assert(rs@.take(i + 1 as int).drop_last() =~= rs@.take(i as int));
            assert(rs@.take(i + 1 as int).last() == rs@[i as int]);
            assert(dst@ =~= base + responses_bytes(rs@.take(i + 1 as int)));
        }
        i = i + 1;
    }
    proof {
        assert(rs@.take(rs@.len() as int) =~= rs@);
    }
}

} // verus!
