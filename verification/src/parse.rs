//! The HTTP proxy request-head parser: it turns a buffered request head into
//! a typed target descriptor, distinguishing CONNECT tunnels from
//! forward-proxy (absolute-form) requests.

use vstd::prelude::*;
use vstd::slice::slice_subrange;
use crate::scan::{
    copy_range, eq_ci, eq_ignore_case, find_byte, find_pat, find_pattern, match_at, next_token,
    rfind_byte, take_token, trim_range, trimmed,
};
use crate::num::{parse_u16, spec_parse_u16};

verus! {

/// Whether a byte sequence is valid UTF-8. The parser only tests this
/// through `utf8_check`; nothing else is assumed about it.
pub uninterp spec fn is_utf8(s: Seq<u8>) -> bool;

/// Relies on `std::str::from_utf8`: it returns `Ok` exactly on UTF-8 input,
/// and bytes that are all ASCII are always valid UTF-8.
#[verifier::external_body]
fn utf8_check(b: &[u8]) -> (r: bool)
    ensures
        r == is_utf8(b@),
        (forall|i: int| 0 <= i < b@.len() ==> b@[i] < 0x80) ==> r,
{
    std::str::from_utf8(b).is_ok()
}

/// Why a request head was rejected.
#[derive(Debug, Clone, Copy, PartialEq, Eq)]
pub enum ParseError {
    /// The head is not valid UTF-8 text.
    InvalidEncoding,
    /// The request line has fewer than two tokens.
    MalformedRequestLine,
    /// A CONNECT target is not `host:port` with a 16-bit port.
    MalformedConnectTarget,
}

/// The parsed target of one proxy request.
#[derive(Debug, Clone, PartialEq, Eq)]
pub enum RequestTarget {
    /// `CONNECT host:port`: open a raw tunnel.
    Connect { host: Vec<u8>, port: u16 },
    /// Any other method: forward the rewritten request.
    Http {
        method: Vec<u8>,
        host: Vec<u8>,
        port: u16,
        path: Vec<u8>,
        headers: Vec<(Vec<u8>, Vec<u8>)>,
    },
}

/// The mathematical shape of a parsed target.
pub enum SpecTarget {
    Connect { host: Seq<u8>, port: u16 },
    Http {
        method: Seq<u8>,
        host: Seq<u8>,
        port: u16,
        path: Seq<u8>,
        headers: Seq<(Seq<u8>, Seq<u8>)>,
    },
}

/// Header list as a sequence of (name, value) byte sequences.
pub open spec fn headers_view(hs: Seq<(Vec<u8>, Vec<u8>)>) -> Seq<(Seq<u8>, Seq<u8>)> {
    hs.map(|i: int, h: (Vec<u8>, Vec<u8>)| (h.0@, h.1@))
}

impl View for RequestTarget {
    type V = SpecTarget;

    open spec fn view(&self) -> SpecTarget {
        match self {
            RequestTarget::Connect { host, port } => SpecTarget::Connect {
                host: host@,
                port: *port,
            },
            RequestTarget::Http { method, host, port, path, headers } => SpecTarget::Http {
                method: method@,
                host: host@,
                port: *port,
                path: path@,
                headers: headers_view(headers@),
            },
        }
    }
}

pub open spec fn crlf() -> Seq<u8> {
    seq![13u8, 10u8]
}

pub open spec fn crlfcrlf() -> Seq<u8> {
    seq![13u8, 10u8, 13u8, 10u8]
}

/// The CONNECT method name, lower-cased.
pub open spec fn kw_connect() -> Seq<u8> {
    seq![99u8, 111u8, 110u8, 110u8, 101u8, 99u8, 116u8]
}

pub open spec fn kw_http_scheme() -> Seq<u8> {
    seq![104u8, 116u8, 116u8, 112u8, 58u8, 47u8, 47u8]
}

pub open spec fn kw_https_scheme() -> Seq<u8> {
    seq![104u8, 116u8, 116u8, 112u8, 115u8, 58u8, 47u8, 47u8]
}

/// The request line: everything before the first CRLF.
pub open spec fn spec_request_line(head: Seq<u8>) -> Seq<u8> {
    match find_pat(head, crlf()) {
        Some(j) => head.take(j),
        None => head,
    }
}

/// Everything after the first CRLF: the header block.
pub open spec fn spec_after_line(head: Seq<u8>) -> Seq<u8> {
    match find_pat(head, crlf()) {
        Some(j) => head.skip(j + 2),
        None => Seq::empty(),
    }
}

/// The header entry of one line: split at the first colon, both sides
/// trimmed; a line without a colon yields nothing.
pub open spec fn spec_header_entry(line: Seq<u8>) -> Seq<(Seq<u8>, Seq<u8>)> {
    match line.index_of_first(58u8) {
        Some(k) => seq![(trimmed(line.take(k)), trimmed(line.skip(k + 1)))],
        None => seq![],
    }
}

/// The header entries of a CRLF-separated block, stopping at the first
/// empty line.
pub open spec fn spec_header_fields(s: Seq<u8>) -> Seq<(Seq<u8>, Seq<u8>)>
    decreases s.len(),
{
    match find_pat(s, crlf()) {
        Some(j) => {
            if 1 <= j && j + 2 <= s.len() {
                spec_header_entry(s.take(j)) + spec_header_fields(s.skip(j + 2))
            } else {
                seq![]
            }
        },
        None => spec_header_entry(s),
    }
}

/// A CONNECT target: host and port split at the first colon.
pub open spec fn spec_parse_connect(t: Seq<u8>) -> Result<SpecTarget, ParseError> {
    match t.index_of_first(58u8) {
        None => Err(ParseError::MalformedConnectTarget),
        Some(k) => match spec_parse_u16(t.skip(k + 1)) {
            None => Err(ParseError::MalformedConnectTarget),
            Some(p) => Ok(SpecTarget::Connect { host: t.take(k), port: p }),
        },
    }
}

/// Drop a leading `http://` or `https://` scheme from an absolute-form
/// target.
pub open spec fn spec_strip_scheme(t: Seq<u8>) -> Seq<u8> {
    if t.len() >= 7 && t.take(7) == kw_http_scheme() {
        t.skip(7)
    } else if t.len() >= 8 && t.take(8) == kw_https_scheme() {
        t.skip(8)
    } else {
        t
    }
}

/// Host and port of an authority: split at the last colon; if the suffix is
/// not a 16-bit number, the whole authority is the host and the port is 80.
pub open spec fn spec_host_port(authority: Seq<u8>) -> (Seq<u8>, u16) {
    match authority.index_of_last(58u8) {
        Some(k) => match spec_parse_u16(authority.skip(k + 1)) {
            Some(p) => (authority.take(k), p),
            None => (authority, 80u16),
        },
        None => (authority, 80u16),
    }
}

/// A forward-proxy target: scheme stripped, split at the first slash into
/// authority and path (default path `/`).
pub open spec fn spec_parse_http(
    method: Seq<u8>,
    target: Seq<u8>,
    headers: Seq<(Seq<u8>, Seq<u8>)>,
) -> SpecTarget {
    let rest = spec_strip_scheme(target);
    let authority = match rest.index_of_first(47u8) {
        Some(i) => rest.take(i),
        None => rest,
    };
    let path = match rest.index_of_first(47u8) {
        Some(i) => rest.skip(i),
        None => seq![47u8],
    };
    let hp = spec_host_port(authority);
    SpecTarget::Http { method, host: hp.0, port: hp.1, path, headers }
}

/// What parsing a request head yields, after the text of the request line
/// and header block has been established (the input is UTF-8).
pub open spec fn spec_parse_text(head: Seq<u8>) -> Result<SpecTarget, ParseError> {
    let line = spec_request_line(head);
    match next_token(line) {
        None => Err(ParseError::MalformedRequestLine),
        Some((method, rest1)) => match next_token(rest1) {
            None => Err(ParseError::MalformedRequestLine),
            Some((target, rest2)) => {
                if eq_ci(method, kw_connect()) {
                    spec_parse_connect(target)
                } else {
                    Ok(
                        spec_parse_http(
                            method,
                            target,
                            spec_header_fields(spec_after_line(head)),
                        ),
                    )
                }
            },
        },
    }
}

/// What parsing a request head yields.
pub open spec fn spec_parse(head: Seq<u8>) -> Result<SpecTarget, ParseError> {
    if !is_utf8(head) {
        Err(ParseError::InvalidEncoding)
    } else {
        spec_parse_text(head)
    }
}

fn crlf_vec() -> (r: Vec<u8>)
    ensures
        r@ == crlf(),
{
    let mut v: Vec<u8> = Vec::new();
    v.push(13);
    v.push(10);
    proof {
        assert(v@ =~= crlf());
    }
    v
}

fn kw_connect_vec() -> (r: Vec<u8>)
    ensures
        r@ == kw_connect(),
{
    let mut v: Vec<u8> = Vec::new();
    v.push(99);
    v.push(111);
    v.push(110);
    v.push(110);
    v.push(101);
    v.push(99);
    v.push(116);
    proof {
        assert(v@ =~= kw_connect());
    }
    v
}

fn kw_http_scheme_vec() -> (r: Vec<u8>)
    ensures
        r@ == kw_http_scheme(),
{
    let mut v: Vec<u8> = Vec::new();
    v.push(104);
    v.push(116);
    v.push(116);
    v.push(112);
    v.push(58);
    v.push(47);
    v.push(47);
    proof {
        assert(v@ =~= kw_http_scheme());
    }
    v
}

fn kw_https_scheme_vec() -> (r: Vec<u8>)
    ensures
        r@ == kw_https_scheme(),
{
    let mut v: Vec<u8> = Vec::new();
    v.push(104);
    v.push(116);
    v.push(116);
    v.push(112);
    v.push(115);
    v.push(58);
    v.push(47);
    v.push(47);
    proof {
        assert(v@ =~= kw_https_scheme());
    }
    v
}

/// First position of the CRLFCRLF header terminator in `buf`, if any: the
/// caller buffers bytes until this returns `Some` and hands everything up to
/// and including the terminator to `parse_request_head`.
pub fn find_head_end(buf: &[u8]) -> (r: Option<usize>)
    ensures
        match r {
            Some(j) => j + 4 <= buf@.len() && find_pat(buf@, crlfcrlf()) == Some(j as int),
            None => find_pat(buf@, crlfcrlf()) is None,
        },
{
    let mut pat: Vec<u8> = Vec::new();
    pat.push(13);
    pat.push(10);
    pat.push(13);
    pat.push(10);
    proof {
        assert(pat@ =~= crlfcrlf());
        assert(buf@.skip(0) =~= buf@);
    }
    find_pattern(buf, 0, pat.as_slice())
}

/// Parse a buffered request head into a target descriptor.
///
/// The result is exactly `spec_parse` of the input: a CONNECT line yields
/// `Connect` with the host and the port split at the first colon; any other
/// request line yields `Http` with the scheme stripped, the authority split
/// from the path at the first slash, the port split at the last colon
/// (defaulting to 80), and the header lines split at their first colon and
/// trimmed.
#[verifier::rlimit(50)]
pub fn parse_request_head(head: &[u8]) -> (r: Result<RequestTarget, ParseError>)
    ensures
        match r {
            Ok(t) => spec_parse(head@) == Ok::<SpecTarget, ParseError>(t@),
            Err(e) => spec_parse(head@) == Err::<SpecTarget, ParseError>(e),
        },
        (forall|i: int| 0 <= i < head@.len() ==> head@[i] < 0x80) ==> is_utf8(head@),
{
    if !utf8_check(head) {
        return Err(ParseError::InvalidEncoding);
    }
    let hlen = head.len();
    let crlf_v = crlf_vec();
    proof {
        assert(head@.skip(0) =~= head@);
    }
    let found_line_end = find_pattern(head, 0, crlf_v.as_slice());
    let line_end: usize = match found_line_end {
        Some(j) => j,
        None => hlen,
    };
    let ghost line = spec_request_line(head@);
    proof {
        assert(head@.take(line_end as int) == line);
        assert(head@.subrange(0, line_end as int) == line);
    }
    let tok0 = take_token(head, 0, line_end);
    let (a, b) = match tok0 {
        Some(p) => p,
        None => {
            return Err(ParseError::MalformedRequestLine);
        },
    };
    let tok1 = take_token(head, b, line_end);
    let (c, d) = match tok1 {
        Some(p) => p,
        None => {
            return Err(ParseError::MalformedRequestLine);
        },
    };
    let kw = kw_connect_vec();
    if eq_ignore_case(slice_subrange(head, a, b), kw.as_slice()) {
        match parse_connect_target(head, c, d) {
            Ok(t) => {
                proof {
                    assert(spec_parse(head@) == Ok::<SpecTarget, ParseError>(t@));
                }
                Ok(t)
            },
            Err(err) => Err(err),
        }
    } else {
        let t = parse_http_target(head, a, b, c, d, found_line_end);
        proof {
            assert(spec_parse(head@) == Ok::<SpecTarget, ParseError>(t@));
        }
        Ok(t)
    }
}

/// Parse a CONNECT target `host:port`: split at the first colon, the suffix
/// a 16-bit port.
fn parse_connect_target(head: &[u8], c: usize, d: usize) -> (r: Result<RequestTarget, ParseError>)
    requires
        c <= d <= head@.len(),
    ensures
        ({
            let t = head@.subrange(c as int, d as int);
            match r {
                Ok(tgt) => spec_parse_connect(t) == Ok::<SpecTarget, ParseError>(tgt@),
                Err(e) => spec_parse_connect(t) == Err::<SpecTarget, ParseError>(e),
            }
        }),
{
    let ghost target_seq = head@.subrange(c as int, d as int);
    let colon = find_byte(head, c, d, 58);
    let k: usize = match colon {
        Some(k) => k,
        None => {
            return Err(ParseError::MalformedConnectTarget);
        },
    };
    proof {
        assert(target_seq.take(k - c) =~= head@.subrange(c as int, k as int));
        assert(target_seq.skip(k - c + 1) =~= head@.subrange(k + 1, d as int));
    }
    let port = match parse_u16(head, k + 1, d) {
        Some(p) => p,
        None => {
            return Err(ParseError::MalformedConnectTarget);
        },
    };
    let host = copy_range(head, c, k);
    Ok(RequestTarget::Connect { host, port })
}

/// Parse a forward-proxy request: method token at `[a, b)`, target token at
/// `[c, d)`, header block after the first CRLF of the head.
/// Position after the scheme of the target token `head[c..d)`, mirroring
/// `spec_strip_scheme`.
fn strip_scheme_at(head: &[u8], c: usize, d: usize) -> (e: usize)
    requires
        c <= d <= head@.len(),
    ensures
        c <= e <= d,
        head@.subrange(e as int, d as int) == spec_strip_scheme(
            head@.subrange(c as int, d as int),
        ),
{
    let ghost target_seq = head@.subrange(c as int, d as int);
    let http_kw = kw_http_scheme_vec();
    let https_kw = kw_https_scheme_vec();
    let e: usize = if match_at(head, c, http_kw.as_slice()) && d - c >= 7 {
        proof {
            assert(target_seq.take(7) =~= head@.subrange(c as int, c + 7));
        }
        c + 7
    } else if match_at(head, c, https_kw.as_slice()) && d - c >= 8 {
        proof {
            assert(target_seq.take(7) =~= head@.subrange(c as int, c + 7));
            assert(target_seq.take(8) =~= head@.subrange(c as int, c + 8));
        }
        c + 8
    } else {
        proof {
            if target_seq.len() >= 7 {
                assert(target_seq.take(7) =~= head@.subrange(c as int, c + 7));
            }
            if target_seq.len() >= 8 {
                assert(target_seq.take(8) =~= head@.subrange(c as int, c + 8));
            }
        }
        c
    };
    proof {
        assert(spec_strip_scheme(target_seq) =~= head@.subrange(e as int, d as int));
    }
    e
}

/// Host and port of the authority `head[e..f)`, mirroring `spec_host_port`.
fn split_host_port(head: &[u8], e: usize, f: usize) -> (r: (Vec<u8>, u16))
    requires
        e <= f <= head@.len(),
    ensures
        (r.0@, r.1) == spec_host_port(head@.subrange(e as int, f as int)),
{
    let ghost authority_seq = head@.subrange(e as int, f as int);
    let colon = rfind_byte(head, e, f, 58);
    match colon {
        Some(k) => {
            proof {
                assert(authority_seq.skip(k - e + 1) =~= head@.subrange(k + 1, f as int));
                assert(authority_seq.take(k - e) =~= head@.subrange(e as int, k as int));
            }
            match parse_u16(head, k + 1, f) {
                Some(p) => (copy_range(head, e, k), p),
                None => (copy_range(head, e, f), 80),
            }
        },
        None => (copy_range(head, e, f), 80),
    }
}

/// Parse a forward-proxy request: method token at `[a, b)`, target token at
/// `[c, d)`, header block after the first CRLF of the head.
fn parse_http_target(
    head: &[u8],
    a: usize,
    b: usize,
    c: usize,
    d: usize,
    found_line_end: Option<usize>,
) -> (r: RequestTarget)
    requires
        a <= b <= head@.len(),
        c <= d <= head@.len(),
        match found_line_end {
            Some(j) => j + 2 <= head@.len() && find_pat(head@, crlf()) == Some(j as int),
            None => find_pat(head@, crlf()) is None,
        },
    ensures
        r@ == spec_parse_http(
            head@.subrange(a as int, b as int),
            head@.subrange(c as int, d as int),
            spec_header_fields(spec_after_line(head@)),
        ),
{
    let ghost target_seq = head@.subrange(c as int, d as int);
    let e = strip_scheme_at(head, c, d);
    let ghost rest_seq = spec_strip_scheme(target_seq);
    let slash = find_byte(head, e, d, 47);
    let (f, path): (usize, Vec<u8>) = match slash {
        Some(i) => {
            proof {
                assert(rest_seq.take(i - e) =~= head@.subrange(e as int, i as int));
                assert(rest_seq.skip(i - e) =~= head@.subrange(i as int, d as int));
            }
            (i, copy_range(head, i, d))
        },
        None => {
            let mut p: Vec<u8> = Vec::new();
            p.push(47);
            proof {
                assert(p@ =~= seq![47u8]);
            }
            (d, p)
        },
    };
    let ghost authority_seq = if rest_seq.index_of_first(47u8) is Some {
        rest_seq.take(rest_seq.index_of_first(47u8)->Some_0)
    } else {
        rest_seq
    };
    proof {
        assert(authority_seq =~= head@.subrange(e as int, f as int));
    }
    let hp = split_host_port(head, e, f);
    let host = hp.0;
    let port = hp.1;
    let headers = collect_headers(head, found_line_end);
    let method = copy_range(head, a, b);
    RequestTarget::Http { method, host, port, path, headers }
}

/// Collect the header entries that follow the request line, given the
/// position of the first CRLF of the head.
fn collect_headers(head: &[u8], found_line_end: Option<usize>) -> (r: Vec<(Vec<u8>, Vec<u8>)>)
    requires
        match found_line_end {
            Some(j) => j + 2 <= head@.len() && find_pat(head@, crlf()) == Some(j as int),
            None => find_pat(head@, crlf()) is None,
        },
    ensures
        headers_view(r@) == spec_header_fields(spec_after_line(head@)),
{
    let mut headers: Vec<(Vec<u8>, Vec<u8>)> = Vec::new();
    let ghost after = spec_after_line(head@);
    let hlen = head.len();
    let crlf_v = crlf_vec();
    match found_line_end {
        None => {
            proof {
                after.index_of_first_ensures(58u8);
                assert(spec_header_fields(after) =~= Seq::<(Seq<u8>, Seq<u8>)>::empty());
                assert(headers_view(headers@) =~= Seq::<(Seq<u8>, Seq<u8>)>::empty());
            }
        },
        Some(le) => {
            let mut pos: usize = le + 2;
            proof {
                assert(after == head@.skip(pos as int));
                assert(headers_view(headers@) =~= Seq::<(Seq<u8>, Seq<u8>)>::empty());
                assert(headers_view(headers@) + spec_header_fields(head@.skip(pos as int))
                    =~= spec_header_fields(head@.skip(pos as int)));
            }
            loop
                invariant_except_break
                    pos <= hlen,
                    hlen == head@.len(),
                    crlf_v@ == crlf(),
                    spec_header_fields(after) == headers_view(headers@) + spec_header_fields(
                        head@.skip(pos as int),
                    ),
                ensures
                    headers_view(headers@) == spec_header_fields(after),
                decreases hlen - pos,
            {
                let ghost remaining = head@.skip(pos as int);
                let nl = find_pattern(head, pos, crlf_v.as_slice());
                match nl {
                    Some(j) => {
                        proof {
                            assert(find_pat(remaining, crlf()) == Some(j - pos));
                            assert(remaining.take(j - pos) =~= head@.subrange(
                                pos as int,
                                j as int,
                            ));
                        }
                        if j == pos {
                            // the empty line ends the header block
                            proof {
                                assert(spec_header_fields(remaining) =~= Seq::<
                                    (Seq<u8>, Seq<u8>),
                                >::empty());
                                assert(headers_view(headers@) + spec_header_fields(remaining)
                                    =~= headers_view(headers@));
                            }
                            break;
                        }
                        let ghost hv0 = headers_view(headers@);
                        let ghost entry = spec_header_entry(
                            head@.subrange(pos as int, j as int),
                        );
                        push_header_entry(head, pos, j, &mut headers);
                        proof {
                            assert(remaining.skip(j - pos + 2) =~= head@.skip(j + 2));
                            assert(spec_header_fields(remaining) == entry
                                + spec_header_fields(head@.skip(j + 2)));
                            assert(hv0 + spec_header_fields(remaining) =~= headers_view(
                                headers@,
                            ) + spec_header_fields(head@.skip(j + 2)));
                        }
                        pos = j + 2;
                    },
                    None => {
                        // a last line without a terminator
                        let ghost hv0 = headers_view(headers@);
                        proof {
                            assert(remaining =~= head@.subrange(pos as int, hlen as int));
                        }
                        push_header_entry(head, pos, hlen, &mut headers);
                        proof {
                            assert(spec_header_fields(remaining) == spec_header_entry(remaining));
                            assert(hv0 + spec_header_fields(remaining) =~= headers_view(
                                headers@,
                            ));
                        }
                        break;
                    },
                }
            }
        },
    }
    headers
}

/// Append the header entry of the line `s[from..to)`, if it has a colon.
fn push_header_entry(s: &[u8], from: usize, to: usize, headers: &mut Vec<(Vec<u8>, Vec<u8>)>)
    requires
        from <= to <= s@.len(),
    ensures
        headers_view(final(headers)@) == headers_view(old(headers)@) + spec_header_entry(
            s@.subrange(from as int, to as int),
        ),
{
    let ghost line = s@.subrange(from as int, to as int);
    let colon = find_byte(s, from, to, 58);
    match colon {
        Some(k) => {
            proof {
                assert(line.take(k - from) =~= s@.subrange(from as int, k as int));
                assert(line.skip(k - from + 1) =~= s@.subrange(k + 1, to as int));
            }
            let name = trim_range(s, from, k);
            let value = trim_range(s, k + 1, to);
            headers.push((name, value));
            proof {
                assert(headers_view(headers@) =~= headers_view(old(headers)@)
                    + spec_header_entry(line));
            }
        },
        None => {
            proof {
                assert(headers_view(headers@) =~= headers_view(old(headers)@)
                    + spec_header_entry(line));
            }
        },
    }
}

} // verus!
