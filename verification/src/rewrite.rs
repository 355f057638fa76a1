//! The head rewriter: it formats the forwarding request head, drops
//! hop-by-hop proxy headers, and forces non-persistent semantics by
//! appending `Connection: close` when no connection header survives.

use vstd::prelude::*;
use crate::scan::{eq_ci, eq_ignore_case, extend_bytes, lower};
use crate::parse::{crlf, headers_view};
use crate::num::{dec_digits, u16_dec};

verus! {

/// The header name `proxy-connection`, lower-cased.
pub open spec fn kw_proxy_connection() -> Seq<u8> {
    seq![112u8, 114u8, 111u8, 120u8, 121u8, 45u8, 99u8, 111u8, 110u8, 110u8, 101u8, 99u8, 116u8, 105u8, 111u8, 110u8]
}

/// The header name `proxy-authorization`, lower-cased.
pub open spec fn kw_proxy_authorization() -> Seq<u8> {
    seq![112u8, 114u8, 111u8, 120u8, 121u8, 45u8, 97u8, 117u8, 116u8, 104u8, 111u8, 114u8, 105u8, 122u8, 97u8, 116u8, 105u8, 111u8, 110u8]
}

/// The header name `connection`, lower-cased.
pub open spec fn kw_connection() -> Seq<u8> {
    seq![99u8, 111u8, 110u8, 110u8, 101u8, 99u8, 116u8, 105u8, 111u8, 110u8]
}

/// The header name `host`, lower-cased.
pub open spec fn kw_host() -> Seq<u8> {
    seq![104u8, 111u8, 115u8, 116u8]
}

/// The appended header: name `Connection`, value `close`.
pub open spec fn connection_close_entry() -> (Seq<u8>, Seq<u8>) {
    (seq![67u8, 111u8, 110u8, 110u8, 101u8, 99u8, 116u8, 105u8, 111u8, 110u8], seq![99u8, 108u8, 111u8, 115u8, 101u8])
}

/// A hop-by-hop header name the rewriter drops.
pub open spec fn is_dropped(name: Seq<u8>) -> bool {
    eq_ci(name, kw_proxy_connection()) || eq_ci(name, kw_proxy_authorization())
}

/// The headers that survive the rewrite, in their original order.
pub open spec fn keep_headers(hs: Seq<(Seq<u8>, Seq<u8>)>) -> Seq<(Seq<u8>, Seq<u8>)>
    decreases hs.len(),
{
    if hs.len() == 0 {
        seq![]
    } else if is_dropped(hs[0].0) {
        keep_headers(hs.skip(1))
    } else {
        seq![hs[0]] + keep_headers(hs.skip(1))
    }
}

/// Whether some header of the list bears the given (lower-cased) name.
pub open spec fn has_named(hs: Seq<(Seq<u8>, Seq<u8>)>, name: Seq<u8>) -> bool {
    exists|i: int| 0 <= i < hs.len() && eq_ci(hs[i].0, name)
}

/// The rewritten header list: hop-by-hop headers dropped, `Connection:
/// close` appended when no connection header survives.
pub open spec fn spec_rewritten_headers(hs: Seq<(Seq<u8>, Seq<u8>)>) -> Seq<(Seq<u8>, Seq<u8>)> {
    let k = keep_headers(hs);
    if has_named(k, kw_connection()) {
        k
    } else {
        k.push(connection_close_entry())
    }
}

/// One formatted header line: `name: value` and CRLF.
pub open spec fn spec_header_line(h: (Seq<u8>, Seq<u8>)) -> Seq<u8> {
    h.0 + seq![58u8, 32u8] + h.1 + seq![13u8, 10u8]
}

/// The formatted header lines of a list.
pub open spec fn spec_header_block(hs: Seq<(Seq<u8>, Seq<u8>)>) -> Seq<u8>
    decreases hs.len(),
{
    if hs.len() == 0 {
        seq![]
    } else {
        spec_header_line(hs[0]) + spec_header_block(hs.skip(1))
    }
}

/// The formatted request line: `METHOD PATH HTTP/1.1` and CRLF.
pub open spec fn spec_start_line(method: Seq<u8>, path: Seq<u8>) -> Seq<u8> {
    method + seq![32u8] + path + seq![32u8, 72u8, 84u8, 84u8, 80u8, 47u8, 49u8, 46u8, 49u8, 13u8, 10u8]
}

/// The whole rewritten head.
pub open spec fn spec_rewritten_head(
    method: Seq<u8>,
    path: Seq<u8>,
    hs: Seq<(Seq<u8>, Seq<u8>)>,
) -> Seq<u8> {
    spec_start_line(method, path) + spec_header_block(spec_rewritten_headers(hs)) + crlf()
}

fn pxc_vec() -> (r: Vec<u8>)
    ensures
        r@ == kw_proxy_connection(),
{
    let mut v: Vec<u8> = Vec::new();
    v.push(112);
    v.push(114);
    v.push(111);
    v.push(120);
    v.push(121);
    v.push(45);
    v.push(99);
    v.push(111);
    v.push(110);
    v.push(110);
    v.push(101);
    v.push(99);
    v.push(116);
    v.push(105);
    v.push(111);
    v.push(110);
    proof {
        assert(v@ =~= kw_proxy_connection());
    }
    v
}

fn pxa_vec() -> (r: Vec<u8>)
    ensures
        r@ == kw_proxy_authorization(),
{
    let mut v: Vec<u8> = Vec::new();
    v.push(112);
    v.push(114);
    v.push(111);
    v.push(120);
    v.push(121);
    v.push(45);
    v.push(97);
    v.push(117);
    v.push(116);
    v.push(104);
    v.push(111);
    v.push(114);
    v.push(105);
    v.push(122);
    v.push(97);
    v.push(116);
    v.push(105);
    v.push(111);
    v.push(110);
    proof {
        assert(v@ =~= kw_proxy_authorization());
    }
    v
}

fn conn_vec() -> (r: Vec<u8>)
    ensures
        r@ == kw_connection(),
{
    let mut v: Vec<u8> = Vec::new();
    v.push(99);
    v.push(111);
    v.push(110);
    v.push(110);
    v.push(101);
    v.push(99);
    v.push(116);
    v.push(105);
    v.push(111);
    v.push(110);
    proof {
        assert(v@ =~= kw_connection());
    }
    v
}

fn host_vec() -> (r: Vec<u8>)
    ensures
        r@ == kw_host(),
{
    let mut v: Vec<u8> = Vec::new();
    v.push(104);
    v.push(111);
    v.push(115);
    v.push(116);
    proof {
        assert(v@ =~= kw_host());
    }
    v
}

fn httpver_vec() -> (r: Vec<u8>)
    ensures
        r@ == seq![32u8, 72u8, 84u8, 84u8, 80u8, 47u8, 49u8, 46u8, 49u8, 13u8, 10u8],
{
    let mut v: Vec<u8> = Vec::new();
    v.push(32);
    v.push(72);
    v.push(84);
    v.push(84);
    v.push(80);
    v.push(47);
    v.push(49);
    v.push(46);
    v.push(49);
    v.push(13);
    v.push(10);
    proof {
        assert(v@ =~= seq![32u8, 72u8, 84u8, 84u8, 80u8, 47u8, 49u8, 46u8, 49u8, 13u8, 10u8]);
    }
    v
}

fn connout_vec() -> (r: Vec<u8>)
    ensures
        r@ == connection_close_entry().0,
{
    let mut v: Vec<u8> = Vec::new();
    v.push(67);
    v.push(111);
    v.push(110);
    v.push(110);
    v.push(101);
    v.push(99);
    v.push(116);
    v.push(105);
    v.push(111);
    v.push(110);
    proof {
        assert(v@ =~= connection_close_entry().0);
    }
    v
}

fn close_vec() -> (r: Vec<u8>)
    ensures
        r@ == connection_close_entry().1,
{
    let mut v: Vec<u8> = Vec::new();
    v.push(99);
    v.push(108);
    v.push(111);
    v.push(115);
    v.push(101);
    proof {
        assert(v@ =~= connection_close_entry().1);
    }
    v
}

/// Appending a header to the list appends it to the kept list when its name
/// is not dropped, and changes nothing otherwise.
pub proof fn lemma_keep_snoc(hs: Seq<(Seq<u8>, Seq<u8>)>, x: (Seq<u8>, Seq<u8>))
    ensures
        keep_headers(hs.push(x)) == if is_dropped(x.0) {
            keep_headers(hs)
        } else {
            keep_headers(hs).push(x)
        },
    decreases hs.len(),
{
    if hs.len() == 0 {
        assert(hs.push(x).skip(1) =~= Seq::<(Seq<u8>, Seq<u8>)>::empty());
        if !is_dropped(x.0) {
            assert(seq![x] + keep_headers(Seq::<(Seq<u8>, Seq<u8>)>::empty()) =~= keep_headers(
                hs,
            ).push(x));
        }
    } else {
        assert(hs.push(x).skip(1) =~= hs.skip(1).push(x));
        lemma_keep_snoc(hs.skip(1), x);
        if !is_dropped(hs[0].0) {
            if is_dropped(x.0) {
                assert(seq![hs[0]] + keep_headers(hs.skip(1)) =~= keep_headers(hs));
            } else {
                assert(seq![hs[0]] + keep_headers(hs.skip(1)).push(x) =~= (seq![hs[0]]
                    + keep_headers(hs.skip(1))).push(x));
            }
        }
    }
}

/// Formatting distributes over appending one header.
pub proof fn lemma_block_snoc(hs: Seq<(Seq<u8>, Seq<u8>)>, x: (Seq<u8>, Seq<u8>))
    ensures
        spec_header_block(hs.push(x)) == spec_header_block(hs) + spec_header_line(x),
    decreases hs.len(),
{
    if hs.len() == 0 {
        assert(hs.push(x).skip(1) =~= Seq::<(Seq<u8>, Seq<u8>)>::empty());
        assert(spec_header_line(x) + spec_header_block(Seq::<(Seq<u8>, Seq<u8>)>::empty())
            =~= spec_header_block(hs) + spec_header_line(x));
    } else {
        assert(hs.push(x).skip(1) =~= hs.skip(1).push(x));
        lemma_block_snoc(hs.skip(1), x);
        assert(spec_header_line(hs[0]) + (spec_header_block(hs.skip(1)) + spec_header_line(x))
            =~= (spec_header_line(hs[0]) + spec_header_block(hs.skip(1))) + spec_header_line(x));
    }
}

/// A name is on the extended list exactly when it is on the list or on the
/// new header.
pub proof fn lemma_has_named_snoc(hs: Seq<(Seq<u8>, Seq<u8>)>, x: (Seq<u8>, Seq<u8>), n: Seq<u8>)
    ensures
        has_named(hs.push(x), n) == (has_named(hs, n) || eq_ci(x.0, n)),
{
    if has_named(hs, n) {
        let i = choose|i: int| 0 <= i < hs.len() && eq_ci(hs[i].0, n);
        assert(hs.push(x)[i] == hs[i]);
    }
    if eq_ci(x.0, n) {
        assert(hs.push(x)[hs.len() as int] == x);
    }
    if has_named(hs.push(x), n) {
        let i = choose|i: int| 0 <= i < hs.push(x).len() && eq_ci(hs.push(x)[i].0, n);
        if i < hs.len() {
            assert(hs[i] == hs.push(x)[i]);
        }
    }
}

/// Every kept header is a header of the input list, with a name that is not
/// dropped.
pub proof fn lemma_keep_all(hs: Seq<(Seq<u8>, Seq<u8>)>)
    ensures
        forall|i: int| 0 <= i < keep_headers(hs).len() ==> !is_dropped(
            #[trigger] keep_headers(hs)[i].0,
        ),
    decreases hs.len(),
{
    if hs.len() > 0 {
        lemma_keep_all(hs.skip(1));
        assert forall|i: int| 0 <= i < keep_headers(hs).len() implies !is_dropped(
            #[trigger] keep_headers(hs)[i].0,
        ) by {
            if is_dropped(hs[0].0) {
                assert(keep_headers(hs) == keep_headers(hs.skip(1)));
                assert(!is_dropped(keep_headers(hs.skip(1))[i].0));
            } else if i > 0 {
                assert(keep_headers(hs)[i] == keep_headers(hs.skip(1))[i - 1]);
                assert(!is_dropped(keep_headers(hs.skip(1))[i - 1].0));
            } else {
                assert(keep_headers(hs)[0] == hs[0]);
            }
        }
    }
}

/// Keeping keeps a list in which nothing is dropped.
pub proof fn lemma_keep_id(hs: Seq<(Seq<u8>, Seq<u8>)>)
    requires
        forall|i: int| 0 <= i < hs.len() ==> !is_dropped(#[trigger] hs[i].0),
    ensures
        keep_headers(hs) == hs,
    decreases hs.len(),
{
    if hs.len() > 0 {
        assert(forall|i: int| 0 <= i < hs.skip(1).len() ==> hs.skip(1)[i] == hs[i + 1]);
        lemma_keep_id(hs.skip(1));
        assert(seq![hs[0]] + hs.skip(1) =~= hs);
    }
}

/// The rewritten list never holds a header named `proxy-connection` or
/// `proxy-authorization`, whatever the input list.
pub proof fn lemma_no_hop_by_hop(hs: Seq<(Seq<u8>, Seq<u8>)>)
    ensures
        forall|i: int| 0 <= i < spec_rewritten_headers(hs).len() ==> !is_dropped(
            #[trigger] spec_rewritten_headers(hs)[i].0,
        ),
{
    lemma_keep_all(hs);
    assert(lower(connection_close_entry().0) =~= kw_connection());
    assert(!is_dropped(connection_close_entry().0)) by {
        assert(lower(connection_close_entry().0).len() != lower(kw_proxy_connection()).len());
        assert(lower(connection_close_entry().0).len() != lower(kw_proxy_authorization()).len());
    }
}

/// Rewriting is idempotent: a second rewrite returns its input unchanged, so
/// at most one `Connection: close` is ever appended.
pub proof fn lemma_rewrite_idempotent(hs: Seq<(Seq<u8>, Seq<u8>)>)
    ensures
        spec_rewritten_headers(spec_rewritten_headers(hs)) == spec_rewritten_headers(hs),
{
    let k = keep_headers(hs);
    lemma_keep_all(hs);
    lemma_keep_id(k);
    if has_named(k, kw_connection()) {
        assert(spec_rewritten_headers(k) == k);
    } else {
        let cc = connection_close_entry();
        let r1 = k.push(cc);
        assert(eq_ci(cc.0, kw_connection())) by {
            assert(lower(cc.0) =~= kw_connection());
            assert(lower(kw_connection()) =~= kw_connection());
        }
        assert(!is_dropped(cc.0)) by {
            assert(lower(cc.0) =~= kw_connection());
            assert(lower(cc.0).len() != lower(kw_proxy_connection()).len());
            assert(lower(cc.0).len() != lower(kw_proxy_authorization()).len());
        }
        assert(forall|i: int| 0 <= i < r1.len() ==> !is_dropped(#[trigger] r1[i].0)) by {
            assert(forall|i: int| 0 <= i < k.len() ==> r1[i] == k[i]);
        }
        lemma_keep_id(r1);
        assert(has_named(r1, kw_connection())) by {
            assert(r1[k.len() as int] == cc);
        }
        assert(spec_rewritten_headers(r1) == r1);
    }
}

/// Format the forwarding request head: `METHOD PATH HTTP/1.1`, the surviving
/// headers in their original order, `Connection: close` when none of them is
/// a connection header, and a final blank line — every line CRLF-terminated.
pub fn write_modified_request_head(
    method: &[u8],
    path: &[u8],
    headers: &[(Vec<u8>, Vec<u8>)],
) -> (r: Vec<u8>)
    ensures
        r@ == spec_rewritten_head(method@, path@, headers_view(headers@)),
{
    let ghost hv = headers_view(headers@);
    let mut out: Vec<u8> = Vec::new();
    extend_bytes(&mut out, method);
    out.push(32);
    extend_bytes(&mut out, path);
    let ver = httpver_vec();
    extend_bytes(&mut out, ver.as_slice());
    proof {
        assert(out@ =~= spec_start_line(method@, path@));
        assert(keep_headers(hv.take(0)) =~= Seq::<(Seq<u8>, Seq<u8>)>::empty());
        assert(out@ + spec_header_block(keep_headers(hv.take(0))) =~= out@);
    }
    let pxc = pxc_vec();
    let pxa = pxa_vec();
    let conn = conn_vec();
    let ghost start = out@;
    let mut has_connection = false;
    let mut i: usize = 0;
    while i < headers.len()
        invariant
            i <= headers@.len(),
            hv == headers_view(headers@),
            hv.len() == headers@.len(),
            pxc@ == kw_proxy_connection(),
            pxa@ == kw_proxy_authorization(),
            conn@ == kw_connection(),
            out@ == start + spec_header_block(keep_headers(hv.take(i as int))),
            has_connection == has_named(keep_headers(hv.take(i as int)), kw_connection()),
        decreases headers@.len() - i,
    {
        let ghost kept0 = keep_headers(hv.take(i as int));
        let ghost h = hv[i as int];
        proof {
            assert(hv.take(i + 1) =~= hv.take(i as int).push(h));
            lemma_keep_snoc(hv.take(i as int), h);
            lemma_has_named_snoc(kept0, h, kw_connection());
        }
        let name = &headers[i].0;
        let value = &headers[i].1;
        let dropped = eq_ignore_case(name.as_slice(), pxc.as_slice()) || eq_ignore_case(
            name.as_slice(),
            pxa.as_slice(),
        );
        if !dropped {
            if eq_ignore_case(name.as_slice(), conn.as_slice()) {
                has_connection = true;
            }
            extend_bytes(&mut out, name.as_slice());
            out.push(58);
            out.push(32);
            extend_bytes(&mut out, value.as_slice());
            out.push(13);
            out.push(10);
            proof {
                lemma_block_snoc(kept0, h);
                assert(out@ =~= start + spec_header_block(keep_headers(hv.take(i + 1))));
            }
        } else {
            proof {
                assert(has_named(kept0, kw_connection()) == has_named(
                    keep_headers(hv.take(i + 1)),
                    kw_connection(),
                ));
            }
        }
        i = i + 1;
    }
    proof {
        assert(hv.take(hv.len() as int) =~= hv);
    }
    if !has_connection {
        let cn = connout_vec();
        let cv = close_vec();
        let ghost kept = keep_headers(hv);
        extend_bytes(&mut out, cn.as_slice());
        out.push(58);
        out.push(32);
        extend_bytes(&mut out, cv.as_slice());
        out.push(13);
        out.push(10);
        proof {
            lemma_block_snoc(kept, connection_close_entry());
            assert(out@ =~= start + spec_header_block(spec_rewritten_headers(hv)));
        }
    }
    out.push(13);
    out.push(10);
    proof {
        assert(out@ =~= spec_rewritten_head(method@, path@, hv));
    }
    out
}

/// The `Host` header value the caller injects: the host alone on port 80,
/// else `host:port`.
pub open spec fn spec_host_value(host: Seq<u8>, port: u16) -> Seq<u8> {
    if port == 80 {
        host
    } else {
        host + seq![58u8] + dec_digits(port as int)
    }
}

/// Append a `Host` header when the list has none, valued per
/// `spec_host_value`.
pub fn ensure_host_header(headers: &mut Vec<(Vec<u8>, Vec<u8>)>, host: &[u8], port: u16)
    ensures
        headers_view(final(headers)@) == if has_named(headers_view(old(headers)@), kw_host()) {
            headers_view(old(headers)@)
        } else {
            headers_view(old(headers)@).push((seq![72u8, 111u8, 115u8, 116u8], spec_host_value(host@, port)))
        },
{
    let ghost hv0 = headers_view(headers@);
    let kw = host_vec();
    let mut i: usize = 0;
    let mut found = false;
    while i < headers.len()
        invariant
            i <= headers@.len(),
            hv0 == headers_view(headers@),
            hv0.len() == headers@.len(),
            kw@ == kw_host(),
            found == has_named(hv0.take(i as int), kw_host()),
        decreases headers@.len() - i,
    {
        proof {
            assert(hv0.take(i + 1) =~= hv0.take(i as int).push(hv0[i as int]));
            lemma_has_named_snoc(hv0.take(i as int), hv0[i as int], kw_host());
        }
        if eq_ignore_case(headers[i].0.as_slice(), kw.as_slice()) {
            found = true;
        }
        i = i + 1;
    }
    proof {
        assert(hv0.take(hv0.len() as int) =~= hv0);
    }
    if !found {
        let mut name: Vec<u8> = Vec::new();
        name.push(72);
        name.push(111);
        name.push(115);
        name.push(116);
        proof {
            assert(name@ =~= seq![72u8, 111u8, 115u8, 116u8]);
        }
        let mut value: Vec<u8> = Vec::new();
        extend_bytes(&mut value, host);
        if port != 80 {
            value.push(58);
            let mut digits = u16_dec(port);
            extend_bytes(&mut value, digits.as_slice());
            proof {
                assert(value@ =~= spec_host_value(host@, port));
            }
        } else {
            proof {
                assert(value@ =~= spec_host_value(host@, port));
            }
        }
        headers.push((name, value));
        proof {
            assert(headers_view(headers@) =~= hv0.push(
                (seq![72u8, 111u8, 115u8, 116u8], spec_host_value(host@, port)),
            ));
        }
    }
}

} // verus!
