//! The SOCKS5 client handshake as a pure state machine. The caller opens the
//! transport to the backend, writes the bytes each step hands out, reads the
//! exact number of bytes the step asks for, and feeds them to the next step;
//! when a step says `Done` the transport is the established tunnel.

use vstd::prelude::*;
use crate::scan::extend_bytes;
use crate::addr::{parse_ipv4, parse_ipv6, spec_ipv4, spec_ipv6};

verus! {

/// Why a handshake failed.
#[derive(Debug, Clone, Copy, PartialEq, Eq)]
pub enum SocksError {
    /// An unexpected wire byte: a bad version, an unsupported method, a
    /// non-zero reply code or an unknown address type, carried as the raw
    /// offending byte.
    Protocol(u8),
    /// The backend requires authentication the client cannot give, offers no
    /// acceptable method, or rejected the credentials.
    Permission,
    /// A username, password or domain name longer than 255 bytes, which the
    /// single-byte length fields cannot carry.
    InvalidInput,
}

/// A username and password for the RFC 1929 subnegotiation; both are always
/// present together.
#[derive(Debug, Clone, PartialEq, Eq)]
pub struct Credentials {
    pub username: Vec<u8>,
    pub password: Vec<u8>,
}

impl View for Credentials {
    type V = (Seq<u8>, Seq<u8>);

    open spec fn view(&self) -> (Seq<u8>, Seq<u8>) {
        (self.username@, self.password@)
    }
}

/// The credentials the session was given, as sequences.
pub open spec fn creds_view(c: Option<Credentials>) -> Option<(Seq<u8>, Seq<u8>)> {
    match c {
        None => None,
        Some(c) => Some((c.username@, c.password@)),
    }
}

/// The waiting points of the handshake: what reply the client expects next.
#[derive(Debug, Clone, Copy, PartialEq, Eq)]
pub enum SessionState {
    /// The greeting was sent; two bytes of method choice are due.
    GreetingSent,
    /// The username/password subnegotiation was sent; two bytes are due.
    AuthSent,
    /// The CONNECT request was sent; the four-byte reply head is due.
    SentConnect,
    /// A domain-typed bound address follows; its one-byte length is due.
    BoundDomainLen,
    /// The rest of the bound address and port are due; they are discarded.
    BoundTail,
}

/// What the driver must do next.
#[derive(Debug, Clone, PartialEq, Eq)]
pub enum Step {
    /// Write `out`, then read exactly `expect` bytes and step again.
    Send { out: Vec<u8>, expect: usize, next: SessionState },
    /// Read exactly `expect` bytes and step again.
    Recv { expect: usize, next: SessionState },
    /// The handshake is complete; the transport is the tunnel.
    Done,
    /// The handshake failed; the connection is abandoned.
    Fail(SocksError),
}

/// The mathematical shape of a step.
pub enum SpecStep {
    Send { out: Seq<u8>, expect: int, next: SessionState },
    Recv { expect: int, next: SessionState },
    Done,
    Fail(SocksError),
}

impl View for Step {
    type V = SpecStep;

    open spec fn view(&self) -> SpecStep {
        match self {
            Step::Send { out, expect, next } => SpecStep::Send {
                out: out@,
                expect: *expect as int,
                next: *next,
            },
            Step::Recv { expect, next } => SpecStep::Recv {
                expect: *expect as int,
                next: *next,
            },
            Step::Done => SpecStep::Done,
            Step::Fail(e) => SpecStep::Fail(*e),
        }
    }
}

/// The client greeting: version 5, then the offered methods — always
/// no-auth (0), and username/password (2) exactly when credentials exist.
pub open spec fn spec_greeting(has_creds: bool) -> Seq<u8> {
    if has_creds {
        seq![5u8, 2u8, 0u8, 2u8]
    } else {
        seq![5u8, 1u8, 0u8]
    }
}

/// The RFC 1929 subnegotiation: version 1, then the length-prefixed
/// username and password.
pub open spec fn spec_auth_msg(u: Seq<u8>, p: Seq<u8>) -> Seq<u8> {
    seq![1u8, u.len() as u8] + u + seq![p.len() as u8] + p
}

/// A port in network (big-endian) byte order.
pub open spec fn port_be(p: u16) -> Seq<u8> {
    seq![(p / 256) as u8, (p % 256) as u8]
}

/// The destination address field: an IPv4 literal as type 1 and four
/// octets; an IPv6 literal as type 4 and sixteen bytes; anything else as
/// type 3 with a length-prefixed domain of at most 255 bytes; then the
/// port, big-endian.
pub open spec fn spec_encode_dest(host: Seq<u8>, port: u16) -> Result<Seq<u8>, SocksError> {
    match spec_ipv4(host) {
        Some(o) => Ok(seq![1u8] + o + port_be(port)),
        None => match spec_ipv6(host) {
            Some(o) => Ok(seq![4u8] + o + port_be(port)),
            None => if host.len() <= 255 {
                Ok(seq![3u8, host.len() as u8] + host + port_be(port))
            } else {
                Err(SocksError::InvalidInput)
            },
        },
    }
}

/// The CONNECT request: version 5, command 1, reserved 0, destination.
pub open spec fn spec_connect_msg(host: Seq<u8>, port: u16) -> Result<Seq<u8>, SocksError> {
    match spec_encode_dest(host, port) {
        Ok(d) => Ok(seq![5u8, 1u8, 0u8] + d),
        Err(e) => Err(e),
    }
}

/// Sending the CONNECT request, or failing on an oversized domain.
pub open spec fn spec_connect_step(host: Seq<u8>, port: u16) -> SpecStep {
    match spec_connect_msg(host, port) {
        Ok(m) => SpecStep::Send { out: m, expect: 4, next: SessionState::SentConnect },
        Err(e) => SpecStep::Fail(e),
    }
}

/// How many input bytes a state needs before it can step.
pub open spec fn spec_min_input(state: SessionState) -> int {
    match state {
        SessionState::GreetingSent => 2,
        SessionState::AuthSent => 2,
        SessionState::SentConnect => 4,
        SessionState::BoundDomainLen => 1,
        SessionState::BoundTail => 0,
    }
}

/// The handshake transition function: from a waiting state and the reply
/// bytes read, to the next step.
pub open spec fn spec_step(
    host: Seq<u8>,
    port: u16,
    creds: Option<(Seq<u8>, Seq<u8>)>,
    state: SessionState,
    input: Seq<u8>,
) -> SpecStep {
    match state {
        SessionState::GreetingSent => {
            if input[0] != 5 {
                SpecStep::Fail(SocksError::Protocol(input[0]))
            } else if input[1] == 0 {
                spec_connect_step(host, port)
            } else if input[1] == 2 {
                match creds {
                    None => SpecStep::Fail(SocksError::Permission),
                    Some(c) => if c.0.len() > 255 || c.1.len() > 255 {
                        SpecStep::Fail(SocksError::InvalidInput)
                    } else {
                        SpecStep::Send {
                            out: spec_auth_msg(c.0, c.1),
                            expect: 2,
                            next: SessionState::AuthSent,
                        }
                    },
                }
            } else if input[1] == 255 {
                SpecStep::Fail(SocksError::Permission)
            } else {
                SpecStep::Fail(SocksError::Protocol(input[1]))
            }
        },
        SessionState::AuthSent => {
            if input[1] != 0 {
                SpecStep::Fail(SocksError::Permission)
            } else {
                spec_connect_step(host, port)
            }
        },
        SessionState::SentConnect => {
            if input[0] != 5 {
                SpecStep::Fail(SocksError::Protocol(input[0]))
            } else if input[1] != 0 {
                SpecStep::Fail(SocksError::Protocol(input[1]))
            } else if input[3] == 1 {
                SpecStep::Recv { expect: 6, next: SessionState::BoundTail }
            } else if input[3] == 3 {
                SpecStep::Recv { expect: 1, next: SessionState::BoundDomainLen }
            } else if input[3] == 4 {
                SpecStep::Recv { expect: 18, next: SessionState::BoundTail }
            } else {
                SpecStep::Fail(SocksError::Protocol(input[3]))
            }
        },
        SessionState::BoundDomainLen => SpecStep::Recv {
            expect: input[0] + 2,
            next: SessionState::BoundTail,
        },
        SessionState::BoundTail => SpecStep::Done,
    }
}

/// Start a handshake: the greeting to send, and the two reply bytes to read.
pub fn session_start(creds: &Option<Credentials>) -> (r: Step)
    ensures
        (r@ == SpecStep::Send {
            out: spec_greeting(creds is Some),
            expect: 2,
            next: SessionState::GreetingSent,
        }),
{
    let mut out: Vec<u8> = Vec::new();
    out.push(5);
    match creds {
        Some(_) => {
            out.push(2);
            out.push(0);
            out.push(2);
            proof {
                assert(out@ =~= spec_greeting(true));
            }
        },
        None => {
            out.push(1);
            out.push(0);
            proof {
                assert(out@ =~= spec_greeting(false));
            }
        },
    }
    Step::Send { out, expect: 2, next: SessionState::GreetingSent }
}

/// Encode the destination address and port for the CONNECT request.
pub fn encode_dest(host: &[u8], port: u16) -> (r: Result<Vec<u8>, SocksError>)
    ensures
        match r {
            Ok(v) => spec_encode_dest(host@, port) == Ok::<Seq<u8>, SocksError>(v@),
            Err(e) => spec_encode_dest(host@, port) == Err::<Seq<u8>, SocksError>(e),
        },
{
    let mut out: Vec<u8> = Vec::new();
    match parse_ipv4(host) {
        Some(o) => {
            out.push(1);
            extend_bytes(&mut out, o.as_slice());
            push_port(&mut out, port);
            proof {
                assert(out@ =~= seq![1u8] + o@ + port_be(port));
            }
            Ok(out)
        },
        None => match parse_ipv6(host) {
            Some(o) => {
                out.push(4);
                extend_bytes(&mut out, o.as_slice());
                push_port(&mut out, port);
                proof {
                    assert(out@ =~= seq![4u8] + o@ + port_be(port));
                }
                Ok(out)
            },
            None => {
                if host.len() > 255 {
                    return Err(SocksError::InvalidInput);
                }
                out.push(3);
                out.push(host.len() as u8);
                extend_bytes(&mut out, host);
                push_port(&mut out, port);
                proof {
                    assert(out@ =~= seq![3u8, host@.len() as u8] + host@ + port_be(port));
                }
                Ok(out)
            },
        },
    }
}

/// Append a big-endian port.
fn push_port(out: &mut Vec<u8>, port: u16)
    ensures
        final(out)@ == old(out)@ + port_be(port),
{
    out.push((port / 256) as u8);
    out.push((port % 256) as u8);
    proof {
        assert(out@ =~= old(out)@ + port_be(port));
    }
}

/// Build the CONNECT request, mirroring `spec_connect_step`.
fn connect_step(host: &[u8], port: u16) -> (r: Step)
    ensures
        r@ == spec_connect_step(host@, port),
{
    match encode_dest(host, port) {
        Ok(d) => {
            let mut out: Vec<u8> = Vec::new();
            out.push(5);
            out.push(1);
            out.push(0);
            extend_bytes(&mut out, d.as_slice());
            proof {
                assert(out@ =~= seq![5u8, 1u8, 0u8] + d@);
            }
            Step::Send { out, expect: 4, next: SessionState::SentConnect }
        },
        Err(e) => Step::Fail(e),
    }
}

/// One handshake step: from the waiting state and the reply bytes read, to
/// what the driver must do next. The result is exactly `spec_step` of the
/// inputs.
pub fn session_step(
    host: &[u8],
    port: u16,
    creds: &Option<Credentials>,
    state: SessionState,
    input: &[u8],
) -> (r: Step)
    requires
        input@.len() >= spec_min_input(state),
    ensures
        r@ == spec_step(host@, port, creds_view(*creds), state, input@),
{
    match state {
        SessionState::GreetingSent => {
            if input[0] != 5 {
                Step::Fail(SocksError::Protocol(input[0]))
            } else if input[1] == 0 {
                connect_step(host, port)
            } else if input[1] == 2 {
                match creds {
                    None => Step::Fail(SocksError::Permission),
                    Some(c) => {
                        if c.username.len() > 255 || c.password.len() > 255 {
                            Step::Fail(SocksError::InvalidInput)
                        } else {
                            let mut out: Vec<u8> = Vec::new();
                            out.push(1);
                            out.push(c.username.len() as u8);
                            extend_bytes(&mut out, c.username.as_slice());
                            out.push(c.password.len() as u8);
                            extend_bytes(&mut out, c.password.as_slice());
                            proof {
                                assert(out@ =~= spec_auth_msg(c.username@, c.password@));
                            }
                            Step::Send { out, expect: 2, next: SessionState::AuthSent }
                        }
                    },
                }
            } else if input[1] == 255 {
                Step::Fail(SocksError::Permission)
            } else {
                Step::Fail(SocksError::Protocol(input[1]))
            }
        },
        SessionState::AuthSent => {
            if input[1] != 0 {
                Step::Fail(SocksError::Permission)
            } else {
                connect_step(host, port)
            }
        },
        SessionState::SentConnect => {
            if input[0] != 5 {
                Step::Fail(SocksError::Protocol(input[0]))
            } else if input[1] != 0 {
                Step::Fail(SocksError::Protocol(input[1]))
            } else if input[3] == 1 {
                Step::Recv { expect: 6, next: SessionState::BoundTail }
            } else if input[3] == 3 {
                Step::Recv { expect: 1, next: SessionState::BoundDomainLen }
            } else if input[3] == 4 {
                Step::Recv { expect: 18, next: SessionState::BoundTail }
            } else {
                Step::Fail(SocksError::Protocol(input[3]))
            }
        },
        SessionState::BoundDomainLen => Step::Recv {
            expect: (input[0] as usize) + 2,
            next: SessionState::BoundTail,
        },
        SessionState::BoundTail => Step::Done,
    }
}

} // verus!
