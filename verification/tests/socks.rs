use http2socks_proxy::{
    encode_dest, session_start, session_step, Credentials, SessionState, SocksError, Step,
};

fn creds(u: &[u8], p: &[u8]) -> Option<Credentials> {
    Some(Credentials {
        username: u.to_vec(),
        password: p.to_vec(),
    })
}

#[test]
fn socks_no_auth_domain() {
    // A mock backend that accepts version 5, chooses no-auth, and replies
    // success with an IPv4 bound address.
    let host = b"example.com";
    let none: Option<Credentials> = None;
    let start = session_start(&none);
    let st = match start {
        Step::Send { out, expect, next } => {
            assert_eq!(out, vec![5, 1, 0]);
            assert_eq!(expect, 2);
            next
        }
        _ => panic!("expected greeting"),
    };
    assert_eq!(st, SessionState::GreetingSent);
    // backend: version 5, method 0 (no auth)
    let st = match session_step(host, 80, &none, st, &[5, 0]) {
        Step::Send { out, expect, next } => {
            let mut want: Vec<u8> = vec![5, 1, 0, 3, 11];
            want.extend_from_slice(host);
            want.extend_from_slice(&[0, 80]);
            assert_eq!(out, want);
            assert_eq!(expect, 4);
            next
        }
        _ => panic!("expected CONNECT request"),
    };
    // backend: success, bound to an IPv4 address
    let st = match session_step(host, 80, &none, st, &[5, 0, 0, 1]) {
        Step::Recv { expect, next } => {
            assert_eq!(expect, 6);
            next
        }
        _ => panic!("expected bound-address read"),
    };
    match session_step(host, 80, &none, st, &[0, 0, 0, 0, 0, 0]) {
        Step::Done => {}
        _ => panic!("expected established tunnel"),
    }
}

#[test]
fn socks_auth_required_without_credentials() {
    // The backend offers only username/password; without credentials the
    // handshake fails before any CONNECT-request bytes exist.
    let none: Option<Credentials> = None;
    match session_step(b"example.com", 80, &none, SessionState::GreetingSent, &[5, 2]) {
        Step::Fail(SocksError::Permission) => {}
        _ => panic!("expected permission failure"),
    }
}

#[test]
fn socks_with_auth_ipv4() {
    let host = b"127.0.0.1";
    let c = creds(b"u", b"p");
    let st = match session_start(&c) {
        Step::Send { out, expect, next } => {
            assert_eq!(out, vec![5, 2, 0, 2]);
            assert_eq!(expect, 2);
            next
        }
        _ => panic!("expected greeting"),
    };
    // backend chooses username/password
    let st = match session_step(host, 8080, &c, st, &[5, 2]) {
        Step::Send { out, expect, next } => {
            assert_eq!(out, vec![1, 1, b'u', 1, b'p']);
            assert_eq!(expect, 2);
            next
        }
        _ => panic!("expected subnegotiation"),
    };
    assert_eq!(st, SessionState::AuthSent);
    // backend accepts the credentials; the CONNECT request carries address
    // type 1, the four octets, and the port in network byte order
    let st = match session_step(host, 8080, &c, st, &[1, 0]) {
        Step::Send { out, expect, next } => {
            assert_eq!(out, vec![5, 1, 0, 1, 127, 0, 0, 1, 0x1f, 0x90]);
            assert_eq!(expect, 4);
            next
        }
        _ => panic!("expected CONNECT request"),
    };
    let st = match session_step(host, 8080, &c, st, &[5, 0, 0, 1]) {
        Step::Recv { expect, next } => {
            assert_eq!(expect, 6);
            next
        }
        _ => panic!("expected bound-address read"),
    };
    match session_step(host, 8080, &c, st, &[0, 0, 0, 0, 0, 0]) {
        Step::Done => {}
        _ => panic!("expected established tunnel"),
    }
}

#[test]
fn socks_auth_rejected() {
    let c = creds(b"u", b"p");
    match session_step(b"h", 1, &c, SessionState::AuthSent, &[1, 1]) {
        Step::Fail(SocksError::Permission) => {}
        _ => panic!("expected permission failure"),
    }
}

#[test]
fn socks_oversized_username_is_invalid_input() {
    let c = creds(&[b'u'; 256], b"p");
    match session_step(b"h", 1, &c, SessionState::GreetingSent, &[5, 2]) {
        Step::Fail(SocksError::InvalidInput) => {}
        _ => panic!("expected invalid-input failure"),
    }
}

#[test]
fn socks_bad_version_and_methods() {
    let none: Option<Credentials> = None;
    match session_step(b"h", 1, &none, SessionState::GreetingSent, &[6, 0]) {
        Step::Fail(SocksError::Protocol(6)) => {}
        _ => panic!("expected protocol failure"),
    }
    match session_step(b"h", 1, &none, SessionState::GreetingSent, &[5, 255]) {
        Step::Fail(SocksError::Permission) => {}
        _ => panic!("expected permission failure"),
    }
    match session_step(b"h", 1, &none, SessionState::GreetingSent, &[5, 9]) {
        Step::Fail(SocksError::Protocol(9)) => {}
        _ => panic!("expected protocol failure"),
    }
}

#[test]
fn socks_reply_errors() {
    let none: Option<Credentials> = None;
    // non-zero reply code carries the raw code
    match session_step(b"h", 1, &none, SessionState::SentConnect, &[5, 4, 0, 1]) {
        Step::Fail(SocksError::Protocol(4)) => {}
        _ => panic!("expected protocol failure"),
    }
    // bad version in the reply
    match session_step(b"h", 1, &none, SessionState::SentConnect, &[4, 0, 0, 1]) {
        Step::Fail(SocksError::Protocol(4)) => {}
        _ => panic!("expected protocol failure"),
    }
    // unknown bound-address type
    match session_step(b"h", 1, &none, SessionState::SentConnect, &[5, 0, 0, 9]) {
        Step::Fail(SocksError::Protocol(9)) => {}
        _ => panic!("expected protocol failure"),
    }
}

#[test]
fn socks_domain_bound_address_kept_aligned() {
    let none: Option<Credentials> = None;
    let st = match session_step(b"h", 1, &none, SessionState::SentConnect, &[5, 0, 0, 3]) {
        Step::Recv { expect, next } => {
            assert_eq!(expect, 1);
            next
        }
        _ => panic!("expected length read"),
    };
    assert_eq!(st, SessionState::BoundDomainLen);
    match session_step(b"h", 1, &none, st, &[7]) {
        Step::Recv { expect, next } => {
            assert_eq!(expect, 9);
            assert_eq!(next, SessionState::BoundTail);
        }
        _ => panic!("expected tail read"),
    }
    // an IPv6 bound address is 16 bytes plus the port
    match session_step(b"h", 1, &none, SessionState::SentConnect, &[5, 0, 0, 4]) {
        Step::Recv { expect, next } => {
            assert_eq!(expect, 18);
            assert_eq!(next, SessionState::BoundTail);
        }
        _ => panic!("expected tail read"),
    }
}

#[test]
fn dest_boundary_255_and_256() {
    let long255 = vec![b'a'; 255];
    let enc = encode_dest(&long255, 80).expect("255-byte domain encodes");
    assert_eq!(enc[0], 3);
    assert_eq!(enc[1], 255);
    assert_eq!(enc.len(), 2 + 255 + 2);
    let long256 = vec![b'a'; 256];
    assert_eq!(encode_dest(&long256, 80).unwrap_err(), SocksError::InvalidInput);
}

#[test]
fn dest_ipv6_literal() {
    let enc = encode_dest(b"::1", 443).expect("ipv6 encodes");
    let mut want: Vec<u8> = vec![4];
    want.extend_from_slice(&[0; 15]);
    want.push(1);
    want.extend_from_slice(&[1, 187]);
    assert_eq!(enc, want);
    let enc2 = encode_dest(b"2001:db8::8:800:200C:417A", 80).expect("ipv6 encodes");
    assert_eq!(enc2[0], 4);
    assert_eq!(
        enc2[1..17],
        [0x20, 0x01, 0x0d, 0xb8, 0, 0, 0, 0, 0, 0x08, 0x08, 0, 0x20, 0x0c, 0x41, 0x7a]
    );
}

#[test]
fn dest_ipv6_full_and_embedded_ipv4() {
    let enc = encode_dest(b"2001:db8:0:0:0:0:0:1", 80).expect("full form encodes");
    assert_eq!(enc[0], 4);
    assert_eq!(enc[1..17], [0x20, 0x01, 0x0d, 0xb8, 0, 0, 0, 0, 0, 0, 0, 0, 0, 0, 0, 1]);
    let enc = encode_dest(b"::ffff:192.168.0.1", 80).expect("embedded ipv4 encodes");
    assert_eq!(enc[1..17], [0, 0, 0, 0, 0, 0, 0, 0, 0, 0, 0xff, 0xff, 192, 168, 0, 1]);
}

#[test]
fn dest_not_quite_literals_are_domains() {
    // too few groups, leading-zero octet, out-of-range octet: all domains
    for host in [&b"1:2:3"[..], b"01.2.3.4", b"256.1.1.1", b"1.2.3", b"example.com"] {
        let enc = encode_dest(host, 80).expect("domain encodes");
        assert_eq!(enc[0], 3, "host {:?}", String::from_utf8_lossy(host));
        assert_eq!(enc[1] as usize, host.len());
    }
    // a plain IPv4 literal uses type 1
    let enc = encode_dest(b"10.0.0.255", 80).expect("ipv4 encodes");
    assert_eq!(enc, vec![1, 10, 0, 0, 255, 0, 80]);
}
