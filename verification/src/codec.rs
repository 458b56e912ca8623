//! The stateful startup codec — un-tagged frames before the first Startup,
//! tagged frames after — and the reader loop above it that answers SSL/GSS
//! negotiation requests with a refusal until a terminal request arrives.

use vstd::prelude::*;

use crate::startup::{
    parse_tagged_spec, parse_untagged_spec, response_bytes, CancelData, SpecParse,
    SpecStartupRequest, StartupRequest, StartupResponse,
};
use crate::wire::DecodeError;

verus! {

/// The frame codec of the startup phase. Its one piece of state records
/// whether a Startup request has been decoded: before, frames carry no tag
/// byte; after, every frame must carry one.
pub struct StartupCodec {
    seen_client_startup: bool,
}

/// The grammar the codec applies in a given phase.
pub open spec fn codec_parse_spec(seen: bool, bytes: Seq<u8>) -> SpecParse {
    if seen {
        parse_tagged_spec(bytes)
    } else {
        parse_untagged_spec(bytes)
    }
}

/// A parsed frame consumes at least one byte and no more than the buffer.
pub proof fn lemma_parsed_consumed(seen: bool, bytes: Seq<u8>)
    ensures
        codec_parse_spec(seen, bytes) matches SpecParse::Parsed(r, n) ==> 1 <= n <= bytes.len(),
{
}

impl StartupCodec {
    /// Whether a Startup request has been decoded, for specifications.
    pub closed spec fn spec_seen(self) -> bool {
        self.seen_client_startup
    }

    /// A fresh codec, still awaiting the client's Startup.
    pub fn new() -> (r: StartupCodec)
        ensures
            !r.spec_seen(),
    {
        StartupCodec { seen_client_startup: false }
    }

    /// Whether a Startup request has been decoded.
    pub fn seen_client_startup(&self) -> (r: bool)
        ensures
            r == self.spec_seen(),
    {
        self.seen_client_startup
    }

    /// Decodes one frame from the front of `src` under the grammar of the
    /// current phase. On success exactly the frame's bytes are removed from
    /// `src` and the codec moves to the tagged phase when the frame was a
    /// Startup; otherwise `src` and the codec are untouched, with `None`
    /// standing for an incomplete frame.
    pub fn decode(&mut self, src: &mut Vec<u8>) -> (r: Result<
        Option<StartupRequest>,
        DecodeError,
    >)
        ensures
            match r {
                Ok(None) => codec_parse_spec(old(self).spec_seen(), old(src)@) is NeedMore
                    && final(src)@ == old(src)@ && final(self).spec_seen() == old(
                    self,
                ).spec_seen(),
                Ok(Some(req)) => codec_parse_spec(old(self).spec_seen(), old(src)@) matches
                    SpecParse::Parsed(sr, n) && req@ == sr && final(src)@ == old(src)@.skip(n)
                    && final(self).spec_seen() == (old(self).spec_seen() || sr is Startup),
                Err(e) => codec_parse_spec(old(self).spec_seen(), old(src)@) == SpecParse::Fail(e)
                    && final(src)@ == old(src)@ && final(self).spec_seen() == old(
                    self,
                ).spec_seen(),
            },
    {
        let parsed = if self.seen_client_startup {
            StartupRequest::parse_with_tag(src.as_slice())
        } else {
            StartupRequest::parse_without_tag(src.as_slice())
        };
        match parsed {
            Ok(Some((req, n))) => {
                proof {
                    lemma_parsed_consumed(self.seen_client_startup, src@);
                }
                let tail = src.split_off(n);
                *src = tail;
                if matches!(req, StartupRequest::Startup(_)) {
                    self.seen_client_startup = true;
                }
                Ok(Some(req))
            },
            Ok(None) => Ok(None),
            Err(e) => Err(e),
        }
    }

    /// Encodes a response onto `dst`; the codec itself is unchanged.
    pub fn encode(&mut self, item: &StartupResponse, dst: &mut Vec<u8>)
        requires
            item.wf(),
        ensures
            final(dst)@ == old(dst)@ + response_bytes(*item),
            final(self).spec_seen() == old(self).spec_seen(),
    {
        item.encode(dst)
    }
}

/// Law: an un-tagged Startup is accepted only before any Startup has been
/// seen. Once the codec has seen one it parses tagged frames only: a frame
/// is then accepted only when its leading byte is the password tag, and
/// only as a Password — never as a second Startup.
pub proof fn lemma_phase_transition(bytes: Seq<u8>)
    ensures
        parse_tagged_spec(bytes) matches SpecParse::Parsed(r, n) ==> r is Password && bytes[0]
            == 112,
        codec_parse_spec(true, bytes) == parse_tagged_spec(bytes),
        codec_parse_spec(false, bytes) == parse_untagged_spec(bytes),
{
}

/// A terminal event of the startup reader: the client either started a
/// session or asked to cancel another one.
#[derive(Debug)]
pub enum StartupInfo {
    Startup(Vec<u8>),
    Cancel(CancelData),
}

/// The mathematical form of a terminal startup event.
pub enum SpecStartupInfo {
    Startup(Seq<u8>),
    Cancel(int, int),
}

impl View for StartupInfo {
    type V = SpecStartupInfo;

    open spec fn view(&self) -> SpecStartupInfo {
        match self {
            StartupInfo::Startup(p) => SpecStartupInfo::Startup(p@),
            StartupInfo::Cancel(d) => SpecStartupInfo::Cancel(
                d.process_id as int,
                d.secret_key as int,
            ),
        }
    }
}

/// Why the startup reader gave up on a connection.
#[derive(Clone, Copy, Debug, PartialEq, Eq, Structural)]
pub enum StartupError {
    /// A malformed frame.
    Frame(DecodeError),
    /// A request that is illegal in the current phase, such as a password
    /// before any challenge was issued.
    UnexpectedMessage,
}

/// What the reader yields on the buffered bytes so far: it either needs more
/// bytes from the socket or reached a terminal event.
#[derive(Debug)]
pub enum ReadOutcome {
    NeedMore,
    Terminal(StartupInfo),
}

/// What the reader does with a given phase and buffer: the codec state and
/// buffer it leaves behind, the refusal bytes it sends, and how it ends.
pub enum SpecDrive {
    NeedMore { seen: bool, rest: Seq<u8>, sent: Seq<u8> },
    Done { info: SpecStartupInfo, seen: bool, rest: Seq<u8>, sent: Seq<u8> },
    Fail { err: StartupError, sent: Seq<u8> },
}

/// Prefixes `pre` to the bytes a reader outcome sends.
pub open spec fn with_sent(pre: Seq<u8>, d: SpecDrive) -> SpecDrive {
    match d {
        SpecDrive::NeedMore { seen, rest, sent } => (SpecDrive::NeedMore {
            seen,
            rest,
            sent: pre + sent,
        }),
        SpecDrive::Done { info, seen, rest, sent } => (SpecDrive::Done {
            info,
            seen,
            rest,
            sent: pre + sent,
        }),
        SpecDrive::Fail { err, sent } => (SpecDrive::Fail { err, sent: pre + sent }),
    }
}

/// The reader loop: frames are decoded until one is terminal. A Startup or a
/// Cancel ends the loop; an SSL or GSS negotiation request is answered with
/// the single refusal byte `'N'` and reading goes on; a Password is a
/// protocol error, since no challenge was issued.
pub open spec fn drive_spec(seen: bool, bytes: Seq<u8>) -> SpecDrive
    decreases bytes.len(),
    via drive_spec_decreases
{
    match codec_parse_spec(seen, bytes) {
        SpecParse::NeedMore => (SpecDrive::NeedMore { seen, rest: bytes, sent: Seq::empty() }),
        SpecParse::Fail(e) => (SpecDrive::Fail {
            err: StartupError::Frame(e),
            sent: Seq::empty(),
        }),
        SpecParse::Parsed(req, n) => {
            let rest = bytes.skip(n);
            match req {
                SpecStartupRequest::Startup(p) => (SpecDrive::Done {
                    info: SpecStartupInfo::Startup(p),
                    seen: true,
                    rest,
                    sent: Seq::empty(),
                }),
                SpecStartupRequest::Cancel(pid, key) => (SpecDrive::Done {
                    info: SpecStartupInfo::Cancel(pid, key),
                    seen,
                    rest,
                    sent: Seq::empty(),
                }),
                SpecStartupRequest::SSLRequest => with_sent(
                    response_bytes(StartupResponse::SSLResponse(false)),
                    drive_spec(seen, rest),
                ),
                SpecStartupRequest::GSSEncRequest => with_sent(
                    response_bytes(StartupResponse::GSSEncResponse(false)),
                    drive_spec(seen, rest),
                ),
                SpecStartupRequest::Password(_) => (SpecDrive::Fail {
                    err: StartupError::UnexpectedMessage,
                    sent: Seq::empty(),
                }),
            }
        },
    }
}

#[via_fn]
proof fn drive_spec_decreases(seen: bool, bytes: Seq<u8>) {
    lemma_parsed_consumed(seen, bytes);
}

/// Prefixing distributes over itself.
proof fn lemma_with_sent_assoc(a: Seq<u8>, b: Seq<u8>, d: SpecDrive)
    ensures
        with_sent(a, with_sent(b, d)) == with_sent(a + b, d),
{
    match d {
        SpecDrive::NeedMore { seen, rest, sent } => {
            assert(a + (b + sent) =~= (a + b) + sent);
        },
        SpecDrive::Done { info, seen, rest, sent } => {
            assert(a + (b + sent) =~= (a + b) + sent);
        },
        SpecDrive::Fail { err, sent } => {
            assert(a + (b + sent) =~= (a + b) + sent);
        },
    }
}

/// Reads frames out of `buf` until a terminal event, a malformed frame, or
/// the end of the buffered bytes. Refusals of SSL/GSS negotiation requests
/// are appended to `out`; a caller sends them and, on `NeedMore`, reads more
/// bytes from the client into `buf` before calling again.
#[verifier::rlimit(30)]
pub fn read_frontend_startup(codec: &mut StartupCodec, buf: &mut Vec<u8>, out: &mut Vec<u8>) -> (r:
    Result<ReadOutcome, StartupError>)
    ensures
        ({
            let d = drive_spec(old(codec).spec_seen(), old(buf)@);
            match r {
                Ok(ReadOutcome::NeedMore) => d matches SpecDrive::NeedMore { seen, rest, sent }
                    && final(codec).spec_seen() == seen && final(buf)@ == rest && final(out)@
                    == old(out)@ + sent,
                Ok(ReadOutcome::Terminal(info)) => d matches SpecDrive::Done {
                    info: i,
                    seen,
                    rest,
                    sent,
                } && info@ == i && final(codec).spec_seen() == seen && final(buf)@ == rest
                    && final(out)@ == old(out)@ + sent,
                Err(e) => d matches SpecDrive::Fail { err, sent } && e == err && final(out)@
                    == old(out)@ + sent,
            }
        }),
{
    let ghost seen_in = codec.spec_seen();
    let ghost buf_in = buf@;
    let ghost orig_out = out@;
    let ghost mut emitted: Seq<u8> = Seq::empty();
    proof {
        assert(out@ =~= orig_out + emitted);
        assert(with_sent(emitted, drive_spec(codec.spec_seen(), buf@)) == drive_spec(
            codec.spec_seen(),
            buf@,
        )) by {
            match drive_spec(codec.spec_seen(), buf@) {
                SpecDrive::NeedMore { seen, rest, sent } => {
                    assert(emitted + sent =~= sent);
                },
                SpecDrive::Done { info, seen, rest, sent } => {
                    assert(emitted + sent =~= sent);
                },
                SpecDrive::Fail { err, sent } => {
                    assert(emitted + sent =~= sent);
                },
            }
        }
    }
    #[verifier::loop_isolation(false)]
    loop
        invariant
            out@ == orig_out + emitted,
            drive_spec(seen_in, buf_in) == with_sent(
                emitted,
                drive_spec(codec.spec_seen(), buf@),
            ),
        decreases buf@.len(),
    {
        let ghost seen0 = codec.spec_seen();
        let ghost bytes0 = buf@;
        match codec.decode(buf) {
            Ok(None) => {
                proof {
                    assert(emitted + Seq::<u8>::empty() =~= emitted);
                }
                return Ok(ReadOutcome::NeedMore);
            },
            Ok(Some(req)) => {
                proof {
                    lemma_parsed_consumed(seen0, bytes0);
                }
                match req {
                    StartupRequest::Startup(p) => {
                        proof {
                            assert(emitted + Seq::<u8>::empty() =~= emitted);
                        }
                        return Ok(ReadOutcome::Terminal(StartupInfo::Startup(p)));
                    },
                    StartupRequest::Cancel(data) => {
                        proof {
                            assert(emitted + Seq::<u8>::empty() =~= emitted);
                        }
                        return Ok(ReadOutcome::Terminal(StartupInfo::Cancel(data)));
                    },
                    StartupRequest::SSLRequest => {
                        let resp = StartupResponse::SSLResponse(false);
                        resp.encode(out);
                        proof {
                            lemma_with_sent_assoc(
                                emitted,
                                response_bytes(resp),
                                drive_spec(codec.spec_seen(), buf@),
                            );
                            emitted = emitted + response_bytes(resp);
                        }
                    },
                    StartupRequest::GSSEncRequest => {
                        let resp = StartupResponse::GSSEncResponse(false);
                        resp.encode(out);
                        proof {
                            lemma_with_sent_assoc(
                                emitted,
                                response_bytes(resp),
                                drive_spec(codec.spec_seen(), buf@),
                            );
                            emitted = emitted + response_bytes(resp);
                        }
                    },
                    StartupRequest::Password(_) => {
                        proof {
                            assert(emitted + Seq::<u8>::empty() =~= emitted);
                        }
                        return Err(StartupError::UnexpectedMessage);
                    },
                }
            },
            Err(e) => {
                proof {
                    assert(emitted + Seq::<u8>::empty() =~= emitted);
                }
                return Err(StartupError::Frame(e));
            },
        }
    }
}

} // verus!
