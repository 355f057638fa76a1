//! The parser's laws: a well-formed CONNECT line parses to its host and
//! port, and a well-formed absolute-form request line parses to its method,
//! host, port and path.

use vstd::prelude::*;
use crate::scan::{
    eq_ci, find_pat, is_ws, lemma_find_pat, lemma_nonws_len_is, lower, next_token, ws_front,
    ws_len,
};
use crate::num::{all_digits, dec_digits, dec_val, is_digit, spec_parse_u16};
use crate::parse::{
    crlf, is_utf8, kw_connect, kw_http_scheme, spec_after_line, spec_header_fields, spec_parse,
    spec_parse_connect, spec_parse_http, spec_parse_text, spec_request_line, ParseError,
    SpecTarget,
};

verus! {

/// The method name `CONNECT` as a client writes it.
pub open spec fn kw_connect_upper() -> Seq<u8> {
    seq![67u8, 79u8, 78u8, 78u8, 69u8, 67u8, 84u8]
}

/// The trailing version token `HTTP/1.1`.
pub open spec fn kw_http_version() -> Seq<u8> {
    seq![72u8, 84u8, 84u8, 80u8, 47u8, 49u8, 46u8, 49u8]
}

/// The canonical decimal digits of a number are digits, at least one.
pub proof fn lemma_dec_digits_digits(n: int)
    requires
        n >= 0,
    ensures
        all_digits(dec_digits(n)),
        dec_digits(n).len() >= 1,
    decreases n,
{
    if n >= 10 {
        lemma_dec_digits_digits(n / 10);
        assert forall|i: int| 0 <= i < dec_digits(n).len() implies is_digit(
            dec_digits(n)[i],
        ) by {
            if i < dec_digits(n / 10).len() {
                assert(dec_digits(n)[i] == dec_digits(n / 10)[i]);
            }
        }
    }
}

/// Parsing the canonical decimal digits of a number gives the number back.
pub proof fn lemma_dec_digits_roundtrip(n: int)
    requires
        n >= 0,
    ensures
        dec_val(dec_digits(n)) == n,
    decreases n,
{
    if n < 10 {
        assert(dec_digits(n).take(0) =~= Seq::<u8>::empty());
        assert(dec_val(Seq::<u8>::empty()) == 0);
        assert(dec_digits(n)[0] == (48 + n) as u8);
    } else {
        lemma_dec_digits_roundtrip(n / 10);
        let s = dec_digits(n);
        assert(s.take(s.len() - 1) =~= dec_digits(n / 10));
        assert(s[s.len() - 1] == (48 + n % 10) as u8);
        assert(dec_val(s) == dec_val(dec_digits(n / 10)) * 10 + ((48 + n % 10) as u8 - 48));
    }
}

/// The first CRLF of `s` is at `l` when no byte before `l` is a CR and a
/// CRLF stands at `l`.
pub proof fn lemma_first_crlf(s: Seq<u8>, l: int)
    requires
        0 <= l,
        l + 2 <= s.len(),
        forall|k: int| 0 <= k < l ==> s[k] != 13,
        s[l] == 13,
        s[l + 1] == 10,
    ensures
        find_pat(s, crlf()) == Some(l),
{
    lemma_find_pat(s, crlf());
    assert(s.subrange(l, l + 2) =~= crlf());
    match find_pat(s, crlf()) {
        Some(j) => {
            if j < l {
                assert(s[j] == s.subrange(j, j + 2)[0]);
            }
        },
        None => {},
    }
}

/// The leading-whitespace count of `s` is `w` when `w` bytes of ASCII
/// whitespace precede a position where no whitespace character starts.
pub proof fn lemma_ws_len_ascii(s: Seq<u8>, w: int)
    requires
        0 <= w <= s.len(),
        forall|k: int| 0 <= k < w ==> is_ws(s[k]),
        w < s.len() ==> ws_front(s.skip(w)) == 0,
    ensures
        ws_len(s) == w,
    decreases w,
{
    if w == 0 {
        if s.len() > 0 {
            assert(s.skip(0) =~= s);
        }
    } else {
        assert(is_ws(s[0]));
        assert(ws_front(s) == 1);
        assert forall|k: int| 0 <= k < w - 1 implies is_ws(s.skip(1)[k]) by {
            assert(s.skip(1)[k] == s[k + 1]);
        }
        if w - 1 < s.len() - 1 {
            assert(s.skip(1).skip(w - 1) =~= s.skip(w));
        }
        lemma_ws_len_ascii(s.skip(1), w - 1);
    }
}

/// The next token of `s` is `s[w..w+n)` when `w` ASCII whitespace bytes
/// precede `n` ASCII non-whitespace bytes followed by ASCII whitespace or
/// the end.
pub proof fn lemma_next_token_is(s: Seq<u8>, w: int, n: int)
    requires
        0 <= w,
        0 < n,
        w + n <= s.len(),
        forall|k: int| 0 <= k < w ==> is_ws(s[k]),
        forall|k: int| w <= k < w + n ==> s[k] < 0x80 && !is_ws(#[trigger] s[k]),
        w + n < s.len() ==> is_ws(s[w + n]),
    ensures
        next_token(s) == Some((s.subrange(w, w + n), s.skip(w + n))),
{
    assert forall|k: int| w <= k < w + n implies ws_front(#[trigger] s.skip(k)) == 0 by {
        assert(s.skip(k)[0] == s[k]);
    }
    lemma_ws_len_ascii(s, w);
    let t = s.skip(w);
    assert forall|k: int| 0 <= k < n implies ws_front(#[trigger] t.skip(k)) == 0 by {
        assert(t.skip(k) =~= s.skip(w + k));
    }
    if n < t.len() {
        assert(ws_front(t.skip(n)) > 0) by {
            assert(t.skip(n) =~= s.skip(w + n));
            assert(s.skip(w + n)[0] == s[w + n]);
        }
    }
    lemma_nonws_len_is(t, n);
    assert(t.take(n) =~= s.subrange(w, w + n));
    assert(t.skip(n) =~= s.skip(w + n));
}

/// The first occurrence of `c` in `s` is at `i` when `c` stands at `i` and
/// nowhere before.
pub proof fn lemma_index_of_first_is(s: Seq<u8>, c: u8, i: int)
    requires
        0 <= i < s.len(),
        s[i] == c,
        forall|k: int| 0 <= k < i ==> s[k] != c,
    ensures
        s.index_of_first(c) == Some(i),
{
    s.index_of_first_ensures(c);
    match s.index_of_first(c) {
        Some(j) => {},
        None => {
            assert(s.contains(c)) by {
                assert(s[i] == c);
            }
        },
    }
}

/// The last occurrence of `c` in `s` is at `i` when `c` stands at `i` and
/// nowhere after.
pub proof fn lemma_index_of_last_is(s: Seq<u8>, c: u8, i: int)
    requires
        0 <= i < s.len(),
        s[i] == c,
        forall|k: int| i < k < s.len() ==> s[k] != c,
    ensures
        s.index_of_last(c) == Some(i),
{
    s.index_of_last_ensures(c);
    match s.index_of_last(c) {
        Some(j) => {},
        None => {
            assert(s.contains(c)) by {
                assert(s[i] == c);
            }
        },
    }
}

/// Parsing the canonical digits of a 16-bit number as a port succeeds.
pub proof fn lemma_parse_port_digits(port: u16)
    ensures
        spec_parse_u16(dec_digits(port as int)) == Some(port),
{
    lemma_dec_digits_digits(port as int);
    lemma_dec_digits_roundtrip(port as int);
    let d = dec_digits(port as int);
    assert(is_digit(d[0]));
    assert(d[0] != 43);
}

/// Every CONNECT request line `CONNECT host:port HTTP/1.1` parses to
/// `Connect { host, port }`, for every non-empty ASCII host free of
/// whitespace and colons, every port, and whatever follows the line.
#[verifier::rlimit(100)]
pub proof fn lemma_parse_connect_line(host: Seq<u8>, port: u16, tail: Seq<u8>)
    requires
        host.len() > 0,
        forall|i: int|
            0 <= i < host.len() ==> host[i] < 0x80 && !is_ws(#[trigger] host[i]) && host[i] != 58,
    ensures
        ({
            let head = kw_connect_upper() + seq![32u8] + host + seq![58u8] + dec_digits(
                port as int,
            ) + seq![32u8] + kw_http_version() + crlf() + tail;
            spec_parse_text(head) == Ok::<SpecTarget, ParseError>(
                SpecTarget::Connect { host, port },
            ) && (is_utf8(head) ==> spec_parse(head) == Ok::<SpecTarget, ParseError>(
                SpecTarget::Connect { host, port },
            ))
        }),
{
    let dd = dec_digits(port as int);
    lemma_dec_digits_digits(port as int);
    let hp = host + seq![58u8] + dd;
    let line = kw_connect_upper() + seq![32u8] + host + seq![58u8] + dd + seq![32u8]
        + kw_http_version();
    let head = line + crlf() + tail;
    let ll = line.len() as int;
    let hl = host.len() as int;
    assert(line =~= kw_connect_upper() + seq![32u8] + hp + seq![32u8] + kw_http_version());

    // The line holds no CR, so the first CRLF of the head ends it.
    assert forall|k: int| 0 <= k < ll implies head[k] != 13 by {
        assert(head[k] == line[k]);
        if 8 <= k < 8 + hl {
            assert(line[k] == host[k - 8]);
        }
        if 9 + hl <= k < 9 + hl + dd.len() as int {
            assert(line[k] == dd[k - 9 - hl]);
            assert(is_digit(dd[k - 9 - hl]));
        }
    }
    assert(head[ll] == 13 && head[ll + 1] == 10);
    lemma_first_crlf(head, ll);
    assert(spec_request_line(head) == head.take(ll));
    assert(head.take(ll) =~= line);

    // The first token is `CONNECT`, the second `host:port`.
    assert forall|k: int| 0 <= k < 7 implies line[k] < 0x80 && !is_ws(#[trigger] line[k]) by {
        assert(line[k] == kw_connect_upper()[k]);
    }
    lemma_next_token_is(line, 0, 7);
    let method = line.subrange(0, 7);
    assert(method =~= kw_connect_upper());
    let rest1 = line.skip(7);
    assert forall|k: int| 1 <= k < 1 + hp.len() as int implies rest1[k] < 0x80 && !is_ws(
        #[trigger] rest1[k],
    ) by {
        assert(rest1[k] == line[7 + k]);
        if k < 1 + hl {
            assert(line[7 + k] == host[k - 1]);
        } else if k == 1 + hl {
            assert(line[7 + k] == 58);
        } else {
            assert(line[7 + k] == dd[k - 2 - hl]);
            assert(is_digit(dd[k - 2 - hl]));
        }
    }
    assert(is_ws(rest1[0])) by {
        assert(rest1[0] == line[7]);
    }
    assert(is_ws(rest1[1 + hp.len() as int])) by {
        assert(rest1[1 + hp.len() as int] == line[8 + hp.len() as int]);
    }
    lemma_next_token_is(rest1, 1, hp.len() as int);
    let target = rest1.subrange(1, 1 + hp.len() as int);
    assert(target =~= hp);
    assert(next_token(spec_request_line(head)) == Some((method, rest1)));

    // The method is CONNECT, case-insensitively.
    assert(eq_ci(method, kw_connect())) by {
        assert(lower(kw_connect_upper()) =~= kw_connect());
        assert(lower(kw_connect()) =~= kw_connect());
    }

    // The target splits at its first colon into the host and the port.
    assert forall|k: int| 0 <= k < hl implies hp[k] != 58 by {
        assert(hp[k] == host[k]);
    }
    assert(hp[hl] == 58);
    lemma_index_of_first_is(hp, 58, hl);
    assert(hp.take(hl) =~= host);
    assert(hp.skip(hl + 1) =~= dd);
    lemma_parse_port_digits(port);
    assert(spec_parse_connect(hp) == Ok::<SpecTarget, ParseError>(
        SpecTarget::Connect { host, port },
    ));
}

/// Every absolute-form request line `METHOD http://host:port/path HTTP/1.1`
/// parses to `Http` with that method, host, port and path, and the headers
/// of whatever follows the line — for every ASCII, non-CONNECT method and
/// whitespace-free ASCII host (also free of colons and slashes) and path
/// (opening with a slash).
#[verifier::rlimit(100)]
pub proof fn lemma_parse_absolute_form(
    method: Seq<u8>,
    host: Seq<u8>,
    port: u16,
    path: Seq<u8>,
    tail: Seq<u8>,
)
    requires
        method.len() > 0,
        forall|i: int| 0 <= i < method.len() ==> method[i] < 0x80 && !is_ws(#[trigger] method[i]),
        !eq_ci(method, kw_connect()),
        host.len() > 0,
        forall|i: int|
            0 <= i < host.len() ==> host[i] < 0x80 && !is_ws(#[trigger] host[i]) && host[i] != 58
                && host[i] != 47,
        path.len() > 0,
        path[0] == 47,
        forall|i: int| 0 <= i < path.len() ==> path[i] < 0x80 && !is_ws(#[trigger] path[i]),
    ensures
        ({
            let head = method + seq![32u8] + kw_http_scheme() + host + seq![58u8] + dec_digits(
                port as int,
            ) + path + seq![32u8] + kw_http_version() + crlf() + tail;
            let want = SpecTarget::Http {
                method,
                host,
                port,
                path,
                headers: spec_header_fields(tail),
            };
            spec_parse_text(head) == Ok::<SpecTarget, ParseError>(want) && (is_utf8(head)
                ==> spec_parse(head) == Ok::<SpecTarget, ParseError>(want))
        }),
{
    let dd = dec_digits(port as int);
    lemma_dec_digits_digits(port as int);
    let target = kw_http_scheme() + host + seq![58u8] + dd + path;
    let line = method + seq![32u8] + kw_http_scheme() + host + seq![58u8] + dd + path + seq![32u8]
        + kw_http_version();
    let head = line + crlf() + tail;
    let ll = line.len() as int;
    let ml = method.len() as int;
    assert(line =~= method + seq![32u8] + target + seq![32u8] + kw_http_version());

    // The line holds no CR.
    assert forall|k: int| 0 <= k < ll implies head[k] != 13 by {
        assert(head[k] == line[k]);
        if 0 <= k < ml {
            assert(line[k] == method[k]);
        }
        if ml + 1 <= k < ml + 1 + target.len() as int {
            assert(line[k] == target[k - ml - 1]);
            lemma_target_no_ws(method, host, port, path, k - ml - 1);
        }
    }
    assert(head[ll] == 13 && head[ll + 1] == 10);
    lemma_first_crlf(head, ll);
    assert(spec_request_line(head) == head.take(ll));
    assert(head.take(ll) =~= line);

    // The first token is the method, the second the target.
    assert forall|k: int| 0 <= k < ml implies line[k] < 0x80 && !is_ws(#[trigger] line[k]) by {
        assert(line[k] == method[k]);
    }
    lemma_next_token_is(line, 0, ml);
    assert(line.subrange(0, ml) =~= method);
    let rest1 = line.skip(ml);
    let rtl = seq![32u8] + target + seq![32u8] + kw_http_version();
    assert(rest1 =~= rtl);
    assert forall|k: int| 1 <= k < 1 + target.len() as int implies rest1[k] < 0x80 && !is_ws(
        #[trigger] rest1[k],
    ) by {
        assert(rest1[k] == rtl[k]);
        assert(rtl[k] == target[k - 1]);
        lemma_target_no_ws(method, host, port, path, k - 1);
    }
    assert(is_ws(rest1[0])) by {
        assert(rtl[0] == 32);
    }
    assert(is_ws(rest1[1 + target.len() as int])) by {
        assert(rtl[1 + target.len() as int] == 32);
    }
    assert(1 + (target.len() as int) < rest1.len());
    lemma_next_token_is(rest1, 1, target.len() as int);
    assert(rest1.subrange(1, 1 + target.len() as int) =~= target);
    assert(next_token(spec_request_line(head)) == Some((method, rest1)));

    // The scheme is stripped; the rest splits at the first slash.
    let rest = host + seq![58u8] + dd + path;
    assert(target.take(7) =~= kw_http_scheme());
    assert(target.skip(7) =~= rest);
    let hl = host.len() as int;
    let al: int = hl + 1 + dd.len() as int;
    assert forall|k: int| 0 <= k < al implies rest[k] != 47 by {
        if k < hl {
            assert(rest[k] == host[k]);
        } else if k == hl {
            assert(rest[k] == 58);
        } else {
            assert(rest[k] == dd[k - hl - 1]);
            assert(is_digit(dd[k - hl - 1]));
        }
    }
    assert(rest[al] == path[0]);
    lemma_index_of_first_is(rest, 47, al);
    let authority = rest.take(al);
    assert(rest.skip(al) =~= path);

    // The authority splits at its last colon into the host and the port.
    assert(authority[hl] == 58) by {
        assert(authority[hl] == rest[hl]);
    }
    assert forall|k: int| hl < k < authority.len() implies authority[k] != 58 by {
        assert(authority[k] == rest[k]);
        assert(rest[k] == dd[k - hl - 1]);
        assert(is_digit(dd[k - hl - 1]));
    }
    lemma_index_of_last_is(authority, 58, hl);
    assert forall|k: int| 0 <= k < dd.len() implies authority.skip(hl + 1)[k] == dd[k] by {
        assert(authority.skip(hl + 1)[k] == rest[hl + 1 + k]);
        assert(rest[hl + 1 + k] == dd[k]);
    }
    assert(authority.skip(hl + 1) =~= dd);
    assert forall|k: int| 0 <= k < hl implies authority.take(hl)[k] == host[k] by {
        assert(authority.take(hl)[k] == rest[k]);
        assert(rest[k] == host[k]);
    }
    assert(authority.take(hl) =~= host);
    lemma_parse_port_digits(port);
    assert(spec_after_line(head) == head.skip(ll + 2));
    assert(head.skip(ll + 2) =~= tail);
    assert(spec_parse_http(method, target, spec_header_fields(tail)) == SpecTarget::Http {
        method,
        host,
        port,
        path,
        headers: spec_header_fields(tail),
    });
}

/// Every byte of an absolute-form target (scheme, host, colon, canonical
/// port digits, path) is ASCII and not whitespace.
proof fn lemma_target_no_ws(method: Seq<u8>, host: Seq<u8>, port: u16, path: Seq<u8>, k: int)
    requires
        forall|i: int|
            0 <= i < host.len() ==> host[i] < 0x80 && !is_ws(#[trigger] host[i]) && host[i] != 58
                && host[i] != 47,
        forall|i: int| 0 <= i < path.len() ==> path[i] < 0x80 && !is_ws(#[trigger] path[i]),
        0 <= k < (kw_http_scheme() + host + seq![58u8] + dec_digits(port as int) + path).len(),
    ensures
        ({
            let t = kw_http_scheme() + host + seq![58u8] + dec_digits(port as int) + path;
            t[k] < 0x80 && !is_ws(t[k])
        }),
{
    let dd = dec_digits(port as int);
    lemma_dec_digits_digits(port as int);
    let t = kw_http_scheme() + host + seq![58u8] + dd + path;
    let hl = host.len() as int;
    if k < 7 {
        assert(t[k] == kw_http_scheme()[k]);
    } else if k < 7 + hl {
        assert(t[k] == host[k - 7]);
    } else if k == 7 + hl {
        assert(t[k] == 58);
    } else if k < 8 + hl + dd.len() {
        assert(t[k] == dd[k - 8 - hl]);
        assert(is_digit(dd[k - 8 - hl]));
    } else {
        assert(t[k] == path[k - 8 - hl - dd.len() as int]);
    }
}

/// An absolute-form request line without an explicit port parses to port
/// 80: `METHOD http://host/path HTTP/1.1` yields `Http` with port 80.
#[verifier::rlimit(100)]
pub proof fn lemma_parse_absolute_form_no_port(
    method: Seq<u8>,
    host: Seq<u8>,
    path: Seq<u8>,
    tail: Seq<u8>,
)
    requires
        method.len() > 0,
        forall|i: int| 0 <= i < method.len() ==> method[i] < 0x80 && !is_ws(#[trigger] method[i]),
        !eq_ci(method, kw_connect()),
        host.len() > 0,
        forall|i: int|
            0 <= i < host.len() ==> host[i] < 0x80 && !is_ws(#[trigger] host[i]) && host[i] != 58
                && host[i] != 47,
        path.len() > 0,
        path[0] == 47,
        forall|i: int| 0 <= i < path.len() ==> path[i] < 0x80 && !is_ws(#[trigger] path[i]),
    ensures
        ({
            let head = method + seq![32u8] + kw_http_scheme() + host + path + seq![32u8]
                + kw_http_version() + crlf() + tail;
            let want = SpecTarget::Http {
                method,
                host,
                port: 80,
                path,
                headers: spec_header_fields(tail),
            };
            spec_parse_text(head) == Ok::<SpecTarget, ParseError>(want) && (is_utf8(head)
                ==> spec_parse(head) == Ok::<SpecTarget, ParseError>(want))
        }),
{
    let target = kw_http_scheme() + host + path;
    let line = method + seq![32u8] + kw_http_scheme() + host + path + seq![32u8]
        + kw_http_version();
    let head = line + crlf() + tail;
    let ll = line.len() as int;
    let ml = method.len() as int;
    let hl = host.len() as int;
    assert(line =~= method + seq![32u8] + target + seq![32u8] + kw_http_version());

    // The line holds no CR.
    assert forall|k: int| 0 <= k < ll implies head[k] != 13 by {
        assert(head[k] == line[k]);
        if 0 <= k < ml {
            assert(line[k] == method[k]);
        }
        if ml + 1 <= k < ml + 1 + target.len() as int {
            assert(line[k] == target[k - ml - 1]);
            lemma_target_plain_no_ws(host, path, k - ml - 1);
        }
    }
    assert(head[ll] == 13 && head[ll + 1] == 10);
    lemma_first_crlf(head, ll);
    assert(spec_request_line(head) == head.take(ll));
    assert(head.take(ll) =~= line);

    // The first token is the method, the second the target.
    assert forall|k: int| 0 <= k < ml implies line[k] < 0x80 && !is_ws(#[trigger] line[k]) by {
        assert(line[k] == method[k]);
    }
    lemma_next_token_is(line, 0, ml);
    assert(line.subrange(0, ml) =~= method);
    let rest1 = line.skip(ml);
    let rtl = seq![32u8] + target + seq![32u8] + kw_http_version();
    assert(rest1 =~= rtl);
    assert forall|k: int| 1 <= k < 1 + target.len() as int implies rest1[k] < 0x80 && !is_ws(
        #[trigger] rest1[k],
    ) by {
        assert(rest1[k] == rtl[k]);
        assert(rtl[k] == target[k - 1]);
        lemma_target_plain_no_ws(host, path, k - 1);
    }
    assert(is_ws(rest1[0])) by {
        assert(rtl[0] == 32);
    }
    assert(is_ws(rest1[1 + target.len() as int])) by {
        assert(rtl[1 + target.len() as int] == 32);
    }
    assert(1 + (target.len() as int) < rest1.len());
    lemma_next_token_is(rest1, 1, target.len() as int);
    assert(rest1.subrange(1, 1 + target.len() as int) =~= target);
    assert(next_token(spec_request_line(head)) == Some((method, rest1)));

    // The scheme is stripped; the rest splits at the first slash, and the
    // authority, without a colon, is the host with port 80.
    let rest = host + path;
    assert(target.take(7) =~= kw_http_scheme());
    assert(target.skip(7) =~= rest);
    assert forall|k: int| 0 <= k < hl implies rest[k] != 47 by {
        assert(rest[k] == host[k]);
    }
    assert(rest[hl] == path[0]);
    lemma_index_of_first_is(rest, 47, hl);
    let authority = rest.take(hl);
    assert(rest.skip(hl) =~= path);
    assert(authority =~= host);
    authority.index_of_last_ensures(58u8);
    if authority.index_of_last(58u8) is Some {
        let j = authority.index_of_last(58u8)->Some_0;
        assert(authority[j] == 58);
        assert(host[j] == 58);
    }
    assert(spec_after_line(head) == head.skip(ll + 2));
    assert(head.skip(ll + 2) =~= tail);
}

/// Every byte of a portless absolute-form target (scheme, host, path) is
/// ASCII and not whitespace.
proof fn lemma_target_plain_no_ws(host: Seq<u8>, path: Seq<u8>, k: int)
    requires
        forall|i: int|
            0 <= i < host.len() ==> host[i] < 0x80 && !is_ws(#[trigger] host[i]) && host[i] != 58
                && host[i] != 47,
        forall|i: int| 0 <= i < path.len() ==> path[i] < 0x80 && !is_ws(#[trigger] path[i]),
        0 <= k < (kw_http_scheme() + host + path).len(),
    ensures
        ({
            let t = kw_http_scheme() + host + path;
            t[k] < 0x80 && !is_ws(t[k])
        }),
{
    let t = kw_http_scheme() + host + path;
    let hl = host.len() as int;
    if k < 7 {
        assert(t[k] == kw_http_scheme()[k]);
    } else if k < 7 + hl {
        assert(t[k] == host[k - 7]);
    } else {
        assert(t[k] == path[k - 7 - hl]);
    }
}

} // verus!
