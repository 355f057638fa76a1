use http2socks_proxy::{find_head_end, parse_request_head, ParseError, RequestTarget};

#[test]
fn parse_connect() {
    let req = b"CONNECT example.com:443 HTTP/1.1\r\nHost: example.com:443\r\n\r\n";
    let parsed = parse_request_head(req).expect("parse CONNECT");
    match parsed {
        RequestTarget::Connect { host, port } => {
            assert_eq!(host, b"example.com".to_vec());
            assert_eq!(port, 443);
        }
        _ => panic!("expected CONNECT"),
    }
}

#[test]
fn parse_absolute_form() {
    let req = b"GET http://example.com:8080/path?q=1 HTTP/1.1\r\nUser-Agent: x\r\n\r\n";
    let parsed = parse_request_head(req).expect("parse GET");
    match parsed {
        RequestTarget::Http {
            method,
            host,
            port,
            path,
            ..
        } => {
            assert_eq!(method, b"GET".to_vec());
            assert_eq!(host, b"example.com".to_vec());
            assert_eq!(port, 8080);
            assert_eq!(path, b"/path?q=1".to_vec());
        }
        _ => panic!("expected HTTP"),
    }
}

#[test]
fn parse_absolute_form_default_port() {
    let req = b"GET http://example.com/ HTTP/1.1\r\n\r\n";
    match parse_request_head(req).expect("parse") {
        RequestTarget::Http { host, port, path, .. } => {
            assert_eq!(host, b"example.com".to_vec());
            assert_eq!(port, 80);
            assert_eq!(path, b"/".to_vec());
        }
        _ => panic!("expected HTTP"),
    }
}

#[test]
fn parse_https_scheme_and_default_path() {
    let req = b"HEAD https://example.org:8443 HTTP/1.1\r\n\r\n";
    match parse_request_head(req).expect("parse") {
        RequestTarget::Http { method, host, port, path, .. } => {
            assert_eq!(method, b"HEAD".to_vec());
            assert_eq!(host, b"example.org".to_vec());
            assert_eq!(port, 8443);
            assert_eq!(path, b"/".to_vec());
        }
        _ => panic!("expected HTTP"),
    }
}

#[test]
fn parse_port_fallback_keeps_authority() {
    // A non-numeric port suffix falls back to the whole authority with port 80.
    let req = b"GET http://example.com:abc/ HTTP/1.1\r\n\r\n";
    match parse_request_head(req).expect("parse") {
        RequestTarget::Http { host, port, .. } => {
            assert_eq!(host, b"example.com:abc".to_vec());
            assert_eq!(port, 80);
        }
        _ => panic!("expected HTTP"),
    }
}

#[test]
fn parse_headers_trimmed_order_kept() {
    let req = b"GET http://h/ HTTP/1.1\r\n  Accept :  text/html \r\nnocolonline\r\nAccept: x\r\n\r\n";
    match parse_request_head(req).expect("parse") {
        RequestTarget::Http { headers, .. } => {
            assert_eq!(headers.len(), 2);
            assert_eq!(headers[0].0, b"Accept".to_vec());
            assert_eq!(headers[0].1, b"text/html".to_vec());
            assert_eq!(headers[1].1, b"x".to_vec());
        }
        _ => panic!("expected HTTP"),
    }
}

#[test]
fn parse_connect_without_colon_fails() {
    let req = b"CONNECT example.com HTTP/1.1\r\n\r\n";
    assert_eq!(
        parse_request_head(req).unwrap_err(),
        ParseError::MalformedConnectTarget
    );
}

#[test]
fn parse_connect_bad_port_fails() {
    let req = b"CONNECT example.com:99999 HTTP/1.1\r\n\r\n";
    assert_eq!(
        parse_request_head(req).unwrap_err(),
        ParseError::MalformedConnectTarget
    );
}

#[test]
fn parse_connect_case_insensitive_method() {
    let req = b"connect h:1 HTTP/1.1\r\n\r\n";
    match parse_request_head(req).expect("parse") {
        RequestTarget::Connect { host, port } => {
            assert_eq!(host, b"h".to_vec());
            assert_eq!(port, 1);
        }
        _ => panic!("expected CONNECT"),
    }
}

#[test]
fn parse_invalid_utf8_fails() {
    let req = [0xffu8, 0xfe, 0xfd];
    assert_eq!(
        parse_request_head(&req).unwrap_err(),
        ParseError::InvalidEncoding
    );
}

#[test]
fn parse_short_request_line_fails() {
    assert_eq!(
        parse_request_head(b"GET\r\n\r\n").unwrap_err(),
        ParseError::MalformedRequestLine
    );
    assert_eq!(
        parse_request_head(b"\r\n\r\n").unwrap_err(),
        ParseError::MalformedRequestLine
    );
}

#[test]
fn head_end_is_first_terminator() {
    assert_eq!(find_head_end(b"a\r\n\r\nbody\r\n\r\n"), Some(1));
    assert_eq!(find_head_end(b"no terminator"), None);
    assert_eq!(find_head_end(b"\r\n\r\n"), Some(0));
}

#[test]
fn parse_header_values_trimmed_of_unicode_whitespace() {
    // U+00A0 (no-break space) and U+2003 (em space) count as whitespace,
    // as str::trim treats them.
    let req = b"GET http://h/ HTTP/1.1\r\nA: \xc2\xa0v\xc2\xa0\r\nB:\xe2\x80\x83w \xe2\x80\x83\r\n\r\n";
    match parse_request_head(req).expect("parse") {
        RequestTarget::Http { headers, .. } => {
            assert_eq!(headers.len(), 2);
            assert_eq!(headers[0].1, b"v".to_vec());
            assert_eq!(headers[1].1, b"w".to_vec());
        }
        _ => panic!("expected HTTP"),
    }
}

#[test]
fn parse_request_line_split_on_unicode_whitespace() {
    // U+00A0 separates the tokens, as split_whitespace would split them.
    let req = b"GET\xc2\xa0http://example.com/ HTTP/1.1\r\n\r\n";
    match parse_request_head(req).expect("parse") {
        RequestTarget::Http { method, host, .. } => {
            assert_eq!(method, b"GET".to_vec());
            assert_eq!(host, b"example.com".to_vec());
        }
        _ => panic!("expected HTTP"),
    }
}
