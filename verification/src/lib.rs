//! An HTTP proxy front end for a SOCKS5 back end.
//!
//! The crate holds the protocol logic of the gateway: parsing an HTTP proxy
//! request head into a target descriptor, rewriting a forward-proxy request
//! head for the upstream hop, and driving the SOCKS5 client handshake as a
//! pure state machine over the bytes exchanged with the backend. All I/O is
//! left to the caller, which feeds bytes in and writes bytes out.

pub mod scan;
pub mod num;
pub mod parse;
pub mod rewrite;
pub mod addr;
pub mod socks;
pub mod laws;

pub use parse::{find_head_end, parse_request_head, ParseError, RequestTarget};
pub use rewrite::{ensure_host_header, write_modified_request_head};
pub use socks::{
    encode_dest, session_start, session_step, Credentials, SessionState, SocksError, Step,
};
