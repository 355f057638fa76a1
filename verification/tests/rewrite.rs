use http2socks_proxy::{
    ensure_host_header, parse_request_head, write_modified_request_head, RequestTarget,
};

fn h(name: &[u8], value: &[u8]) -> (Vec<u8>, Vec<u8>) {
    (name.to_vec(), value.to_vec())
}

fn count_sub(hay: &[u8], needle: &[u8]) -> usize {
    if needle.is_empty() || hay.len() < needle.len() {
        return 0;
    }
    (0..=hay.len() - needle.len())
        .filter(|&i| &hay[i..i + needle.len()] == needle)
        .count()
}

#[test]
fn rewrite_exact_output() {
    let headers = vec![h(b"Host", b"x")];
    let out = write_modified_request_head(b"GET", b"/", &headers);
    assert_eq!(out, b"GET / HTTP/1.1\r\nHost: x\r\nConnection: close\r\n\r\n".to_vec());
}

#[test]
fn rewrite_drops_hop_by_hop_headers() {
    let headers = vec![
        h(b"Proxy-Connection", b"keep-alive"),
        h(b"Host", b"example.com"),
        h(b"PROXY-AUTHORIZATION", b"Basic SECRET-REDACTED"),
        h(b"Accept", b"*/*"),
    ];
    let out = write_modified_request_head(b"GET", b"/a", &headers);
    let low: Vec<u8> = out.to_ascii_lowercase();
    assert_eq!(count_sub(&low, b"proxy-connection"), 0);
    assert_eq!(count_sub(&low, b"proxy-authorization"), 0);
    assert_eq!(count_sub(&out, b"Host: example.com\r\n"), 1);
    assert_eq!(count_sub(&out, b"Accept: */*\r\n"), 1);
}

#[test]
fn rewrite_keeps_existing_connection_header() {
    let headers = vec![h(b"Connection", b"keep-alive")];
    let out = write_modified_request_head(b"GET", b"/", &headers);
    assert_eq!(count_sub(&out, b"Connection: keep-alive\r\n"), 1);
    assert_eq!(count_sub(&out, b"Connection: close\r\n"), 0);
}

#[test]
fn rewrite_of_rewrite_appends_close_once() {
    // First rewrite of a head without a connection header appends
    // `Connection: close`; rewriting that result changes nothing more.
    let headers = vec![h(b"Host", b"x")];
    let out1 = write_modified_request_head(b"GET", b"/", &headers);
    assert_eq!(count_sub(&out1, b"Connection: close\r\n"), 1);
    let rewritten = vec![h(b"Host", b"x"), h(b"Connection", b"close")];
    let out2 = write_modified_request_head(b"GET", b"/", &rewritten);
    assert_eq!(count_sub(&out2, b"Connection: close\r\n"), 1);
    assert_eq!(out1, out2);
}

#[test]
fn host_header_injected_with_port() {
    let mut headers = vec![h(b"Accept", b"*/*")];
    ensure_host_header(&mut headers, b"example.com", 8080);
    assert_eq!(headers.len(), 2);
    assert_eq!(headers[1].0, b"Host".to_vec());
    assert_eq!(headers[1].1, b"example.com:8080".to_vec());
}

#[test]
fn host_header_injected_plain_on_port_80() {
    let mut headers = Vec::new();
    ensure_host_header(&mut headers, b"example.com", 80);
    assert_eq!(headers, vec![h(b"Host", b"example.com")]);
}

#[test]
fn host_header_not_duplicated() {
    let mut headers = vec![h(b"HOST", b"already.there")];
    ensure_host_header(&mut headers, b"example.com", 8080);
    assert_eq!(headers.len(), 1);
}

#[test]
fn rewritten_head_reparses_to_the_same_headers() {
    let headers = vec![h(b"Host", b"x"), h(b"Accept", b"*/*")];
    let out = write_modified_request_head(b"GET", b"/p", &headers);
    match parse_request_head(&out).expect("reparse") {
        RequestTarget::Http {
            method,
            path,
            headers: reparsed,
            ..
        } => {
            assert_eq!(method, b"GET".to_vec());
            assert_eq!(path, b"/p".to_vec());
            assert_eq!(
                reparsed,
                vec![h(b"Host", b"x"), h(b"Accept", b"*/*"), h(b"Connection", b"close")]
            );
        }
        _ => panic!("expected HTTP"),
    }
}
