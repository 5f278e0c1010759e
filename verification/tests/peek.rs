use sni_gate::peek::{
    after_peek, classify, header_block_end, parse_http_host, parse_tls_sni, Classified, Further, HttpParse, Inbound,
    PeekNext, PeekWait, TlsParse, MAX_PEEK,
};

fn host_of(req: &[u8]) -> String {
    match parse_http_host(req) {
        HttpParse::Host(h) => h,
        HttpParse::NoHost => panic!("expected the Host, got none"),
        HttpParse::NeedMore => panic!("expected the Host, got NeedMore"),
        HttpParse::NotHttp => panic!("expected the Host, got NotHttp"),
    }
}

#[test]
fn http_host_basic() {
    let req = b"GET / HTTP/1.1\r\nHost: p.example.com\r\nConnection: close\r\n\r\n";
    assert_eq!(host_of(req), "p.example.com");
}

#[test]
fn http_host_partial_needs_more() {
    let req = b"GET / HTTP/1.1\r\n";
    assert!(matches!(parse_http_host(req), HttpParse::NeedMore));
}

#[test]
fn a_binary_request_body_does_not_hide_the_host() {
    let mut req: Vec<u8> =
        b"POST /upload HTTP/1.1\r\nHost: p.example.com\r\nContent-Length: 4\r\n\r\n".to_vec();
    req.extend_from_slice(&[0x89, 0x50, 0x4e, 0xff]);
    assert_eq!(host_of(&req), "p.example.com");
}

#[test]
fn a_host_line_is_answered_before_the_terminator() {
    let mut req: Vec<u8> = b"POST /u HTTP/1.1\r\nHost: early.example\r\nX-Trace: ".to_vec();
    req.extend_from_slice(&[0xfe, 0xff]);
    assert_eq!(host_of(&req), "early.example");
}

#[test]
fn a_non_text_neighbouring_header_does_not_hide_the_host() {
    let mut req: Vec<u8> = b"GET / HTTP/1.1\r\nX-Odd: ".to_vec();
    req.extend_from_slice(&[0xff, 0xfe]);
    req.extend_from_slice(b"\r\nHost: still.example\r\n\r\n");
    assert_eq!(host_of(&req), "still.example");
}

#[test]
fn a_non_text_host_value_is_no_host() {
    let mut req: Vec<u8> = b"GET / HTTP/1.1\r\nHost: ".to_vec();
    req.extend_from_slice(&[0xff, 0xfe]);
    req.extend_from_slice(b"\r\n\r\n");
    assert!(matches!(parse_http_host(&req), HttpParse::NoHost));
}

#[test]
fn a_host_line_in_the_body_is_never_read() {
    let req = b"POST /u HTTP/1.1\r\nContent-Length: 22\r\n\r\nHost: attacker.example";
    assert!(matches!(parse_http_host(req), HttpParse::NoHost), "the body must not supply the routing key");
}

#[test]
fn bare_lf_framing_is_still_accepted() {
    assert_eq!(host_of(b"GET / HTTP/1.1\nHost: lf.example\n\nbody"), "lf.example");
    assert!(matches!(parse_http_host(b"GET / HTTP/1.1\nAccept: */*\n\n"), HttpParse::NoHost));
}

#[test]
fn header_block_end_finds_both_framings() {
    assert_eq!(header_block_end(b"a\r\n\r\nbody"), Some(5));
    assert_eq!(header_block_end(b"a\n\nbody"), Some(3));
    assert_eq!(header_block_end(b"a\r\n"), None);
    assert_eq!(header_block_end(b"a\r\n\r"), None);
    assert_eq!(header_block_end(b""), None);
}

#[test]
fn not_http() {
    assert!(matches!(parse_http_host(b"\x16\x03\x01"), HttpParse::NotHttp));
}

#[test]
fn tls_truncated_needs_more() {
    assert!(matches!(parse_tls_sni(b"\x16\x03\x01\x00"), TlsParse::NeedMore));
}

fn build_client_hello_with_sni(host: &str) -> Vec<u8> {
    let host = host.as_bytes();
    let mut sni = Vec::new();
    let entry_len = 1 + 2 + host.len();
    sni.extend_from_slice(&(entry_len as u16).to_be_bytes());
    sni.push(0x00);
    sni.extend_from_slice(&(host.len() as u16).to_be_bytes());
    sni.extend_from_slice(host);

    let mut ext = Vec::new();
    ext.extend_from_slice(&0x0000u16.to_be_bytes());
    ext.extend_from_slice(&(sni.len() as u16).to_be_bytes());
    ext.extend_from_slice(&sni);

    let mut hs_body = Vec::new();
    hs_body.extend_from_slice(&[0x03, 0x03]);
    hs_body.extend_from_slice(&[0u8; 32]);
    hs_body.push(0x00);
    hs_body.extend_from_slice(&2u16.to_be_bytes());
    hs_body.extend_from_slice(&[0x13, 0x01]);
    hs_body.push(0x01);
    hs_body.push(0x00);
    hs_body.extend_from_slice(&(ext.len() as u16).to_be_bytes());
    hs_body.extend_from_slice(&ext);

    let mut hs = Vec::new();
    hs.push(0x01);
    let l = hs_body.len();
    hs.push((l >> 16) as u8);
    hs.push((l >> 8) as u8);
    hs.push(l as u8);
    hs.extend_from_slice(&hs_body);

    let mut rec = Vec::new();
    rec.push(0x16);
    rec.extend_from_slice(&[0x03, 0x01]);
    rec.extend_from_slice(&(hs.len() as u16).to_be_bytes());
    rec.extend_from_slice(&hs);
    rec
}

#[test]
fn tls_real_client_hello_sni() {
    let hello = build_client_hello_with_sni("router.test");
    match parse_tls_sni(&hello) {
        TlsParse::Sni(s) => assert_eq!(s, "router.test"),
        TlsParse::NoSni => panic!("expected SNI, got none"),
        TlsParse::NeedMore => panic!("expected SNI, got NeedMore"),
        TlsParse::NotClientHello => panic!("expected SNI, got NotClientHello"),
    }
}

#[test]
fn every_prefix_of_a_hello_waits_for_the_rest() {
    let hello = build_client_hello_with_sni("router.test");
    for n in 0..hello.len() {
        assert!(matches!(parse_tls_sni(&hello[..n]), TlsParse::NeedMore), "at {n} bytes");
    }
    assert!(matches!(parse_tls_sni(b"\x17\x03\x01\x00\x01\x00"), TlsParse::NotClientHello));
}

#[test]
fn a_window_is_classified_by_its_first_bytes() {
    let hello = build_client_hello_with_sni("router.test");
    match classify(&hello) {
        Classified::Known(i) => {
            assert!(i.is_tls());
            assert_eq!(i.key(), Some("router.test"));
        }
        Classified::PeekMore { .. } => panic!("a whole hello must be classified"),
    }
    match classify(b"GET / HTTP/1.1\r\nHost: p.example.com\r\n\r\n") {
        Classified::Known(i) => {
            assert!(!i.is_tls());
            assert_eq!(i.key(), Some("p.example.com"));
        }
        Classified::PeekMore { .. } => panic!("a whole head must be classified"),
    }
    assert!(matches!(classify(&hello[..20]), Classified::PeekMore { .. }));
    assert!(matches!(classify(b"SSH-2.0-x"), Classified::Known(Inbound::Unknown)));
}

#[test]
fn a_window_that_stops_growing_stays_unknown() {
    assert!(matches!(classify(&[0x16, 3]), Classified::PeekMore { want: 3 }));
    assert!(matches!(after_peek(2, Some(2)), Further::Over(Inbound::Unknown)));
    assert!(matches!(after_peek(2, None), Further::Over(Inbound::Unknown)));
    assert!(matches!(after_peek(2, Some(5)), Further::Grown(5)));
    assert!(matches!(after_peek(0, None), Further::Over(Inbound::Unknown)));
}

#[test]
fn a_full_window_without_a_key_has_none() {
    let mut hello = vec![0u8; MAX_PEEK];
    hello[0] = 0x16;
    hello[1] = 3;
    hello[3] = 0xff;
    hello[4] = 0xff;
    hello[5] = 1;
    hello[6] = 0xff;
    hello[43] = 0xff;
    hello[44 + 255] = 0xff;
    assert!(matches!(classify(&hello), Classified::Known(Inbound::Tls { sni: None })));
    let mut head = b"GET / HTTP/1.1\r\nX: ".to_vec();
    head.resize(MAX_PEEK, b'a');
    assert!(matches!(classify(&head), Classified::Known(Inbound::Http { host: None })));
}

#[test]
fn a_host_line_that_is_cut_short_waits_for_its_end() {
    let req = b"GET / HTTP/1.1\r\nHost: p.example.com\r\nConnection: close\r\n\r\n";
    assert!(matches!(parse_http_host(b"GET / HTTP/1.1\r\nHost: p.exam"), HttpParse::NeedMore));
    assert!(matches!(parse_http_host(b"GET / HTTP/1.1\r\nHost: p.example.com\r"), HttpParse::NeedMore));
    let line_end = b"GET / HTTP/1.1\r\nHost: p.example.com\r\n".len();
    for n in 4..=req.len() {
        match parse_http_host(&req[..n]) {
            HttpParse::Host(h) => {
                assert!(n >= line_end, "answered at {n} bytes");
                assert_eq!(h, "p.example.com");
            }
            HttpParse::NeedMore => assert!(n < line_end, "still waiting at {n} bytes"),
            HttpParse::NoHost => panic!("no host at {n} bytes"),
            HttpParse::NotHttp => panic!("not HTTP at {n} bytes"),
        }
    }
}

#[test]
fn a_name_is_read_behind_other_parts_of_a_hello() {
    let plain = build_client_hello_with_sni("router.test");
    // The same message with a session id, and with an extension in front.
    let exts = plain[52..].to_vec();
    let mut body = plain[9..43].to_vec();
    body.push(3);
    body.extend_from_slice(&[7, 8, 9]);
    body.extend_from_slice(&plain[44..50]);
    let mut all = vec![0x00, 0x2b, 0x00, 0x02, 0x03, 0x04];
    all.extend_from_slice(&exts);
    body.extend_from_slice(&(all.len() as u16).to_be_bytes());
    body.extend_from_slice(&all);
    let mut hello = vec![0x16, 3, 1];
    hello.extend_from_slice(&((body.len() + 4) as u16).to_be_bytes());
    hello.extend_from_slice(&[1, 0]);
    hello.extend_from_slice(&(body.len() as u16).to_be_bytes());
    hello.extend_from_slice(&body);
    hello.extend_from_slice(b"more bytes behind it");
    match parse_tls_sni(&hello) {
        TlsParse::Sni(s) => assert_eq!(s, "router.test"),
        TlsParse::NoSni => panic!("expected SNI, got none"),
        TlsParse::NeedMore => panic!("expected SNI, got NeedMore"),
        TlsParse::NotClientHello => panic!("expected SNI, got NotClientHello"),
    }
}

#[test]
fn a_stalled_peek_backs_off_and_growth_does_not() {
    let mut w = PeekWait::new();
    assert!(matches!(w.step(100, Some(10)), PeekNext::Again | PeekNext::Pause(_)));
    let first = w.step(100, Some(10));
    let second = w.step(100, Some(10));
    match (first, second) {
        (PeekNext::Pause(a), PeekNext::Pause(b)) => assert!(b >= a),
        _ => panic!("no growth must pause"),
    }
    assert!(matches!(w.step(100, Some(100)), PeekNext::Done(Some(100))));
    assert!(matches!(w.step(100, None), PeekNext::Done(None)));
}
