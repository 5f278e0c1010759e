use sni_gate::config::AddressFamily;
use sni_gate::dns::{
    literal_candidates, neither_family_resolved, plan_lookup, resolve_all_ips, resolve_literal, resolve_upstream,
    strategy_for, Answers, Lookup, ResolvedAddrs, ResolverSpec, Strategy,
};
use sni_gate::net::{parse_ip, parse_socket_addr, push_ip, push_socket, IpAddr, SocketAddr};

fn ip(s: &str) -> IpAddr {
    let cs: Vec<char> = s.chars().collect();
    parse_ip(&cs).unwrap()
}

fn socket(s: &str) -> SocketAddr {
    let cs: Vec<char> = s.chars().collect();
    parse_socket_addr(&cs).unwrap()
}

#[test]
fn parse_system() {
    assert_eq!(ResolverSpec::parse("system", None).unwrap(), ResolverSpec::System);
    assert_eq!(ResolverSpec::parse("", None).unwrap(), ResolverSpec::System);
    assert!(ResolverSpec::System.uses_hosts_file());
}

#[test]
fn literal_ipv4_gets_nat64_synthesized() {
    let out = resolve_literal(ip("1.2.3.4"), 443, AddressFamily::Ipv4, Some(0x0064ff9b000000000000000001020304));
    assert_eq!(out, ResolvedAddrs::single(socket("[64:ff9b::102:304]:443")));
    let out6 = resolve_literal(ip("2a01:4f8::1"), 443, AddressFamily::Dual, None);
    assert_eq!(out6, ResolvedAddrs::single(socket("[2a01:4f8::1]:443")));
}

#[test]
fn a_literal_never_produces_a_second_address() {
    for host in ["1.2.3.4", "2a01:4f8::1"] {
        let Lookup::Literal(a) = plan_lookup(host, AddressFamily::Dual, false) else {
            panic!("{host} needs no lookup");
        };
        let out = resolve_literal(a, 443, AddressFamily::Dual, None);
        assert_eq!(out.fallback, None, "{host} should resolve to one address");
    }
}

#[test]
fn resolved_addrs_orders_ipv6_first() {
    let v6 = socket("[2606:4700::1]:443");
    let v4 = socket("1.1.1.1:443");

    let single = ResolvedAddrs::single(v4);
    assert_eq!(single.primary, v4);
    assert_eq!(single.fallback, None);

    let dual = ResolvedAddrs::dual(v6, v4);
    assert_eq!(dual.primary, v6);
    assert_eq!(dual.fallback, Some(v4));
}

#[test]
fn a_dual_failure_names_both_families() {
    let v6 = "AAAA lookup for h.test: no records";
    let v4 = "through bootstrap: A lookup for h.test: refused";
    let rendered = neither_family_resolved("h.test", v6, v4);
    assert!(rendered.contains("no records"), "lost the AAAA reason: {rendered}");
    assert!(rendered.contains("refused"), "lost the A reason: {rendered}");
    assert!(rendered.contains("through bootstrap"), "the A error's chain must survive: {rendered}");
}

#[test]
fn resolve_all_handles_literals_and_filters_by_family() {
    let v4 = ip("1.2.3.4");
    let v6 = ip("2606:4700::1");
    for family in [AddressFamily::Dual, AddressFamily::Ipv4] {
        assert_eq!(literal_candidates(v4, family), vec![v4]);
    }
    for family in [AddressFamily::Dual, AddressFamily::Ipv6] {
        assert_eq!(literal_candidates(v6, family), vec![v6]);
    }
    assert!(literal_candidates(v4, AddressFamily::Ipv6).is_empty());
    assert!(literal_candidates(v6, AddressFamily::Ipv4).is_empty());
}

#[test]
fn parse_bare_ip() {
    assert_eq!(
        ResolverSpec::parse("1.1.1.1", None).unwrap(),
        ResolverSpec::Plain { addr: socket("1.1.1.1:53") }
    );
    assert_eq!(
        ResolverSpec::parse("udp://8.8.8.8:5353", None).unwrap(),
        ResolverSpec::Plain { addr: socket("8.8.8.8:5353") }
    );
}

#[test]
fn parse_doh_and_dot() {
    match ResolverSpec::parse("https://1.1.1.1/dns-query", None).unwrap() {
        ResolverSpec::Doh { ip: a, path, .. } => {
            assert_eq!(a, ip("1.1.1.1"));
            assert_eq!(path, "/dns-query");
        }
        other => panic!("expected DoH, got {other:?}"),
    }
    match ResolverSpec::parse("tls://9.9.9.9", None).unwrap() {
        ResolverSpec::Dot { ip: a, .. } => assert_eq!(a, ip("9.9.9.9")),
        other => panic!("expected DoT, got {other:?}"),
    }
}

#[test]
fn doh_default_path() {
    match ResolverSpec::parse("https://1.1.1.1", None).unwrap() {
        ResolverSpec::Doh { path, .. } => assert_eq!(path, "/dns-query"),
        _ => panic!(),
    }
}

#[test]
fn a_port_in_a_spec_is_the_one_to_reach() {
    match ResolverSpec::parse("https://1.1.1.1:8443/q", None).unwrap() {
        ResolverSpec::Doh { port, path, .. } => {
            assert_eq!(port, 8443);
            assert_eq!(path, "/q");
        }
        other => panic!("expected DoH, got {other:?}"),
    }
    assert_eq!(
        ResolverSpec::parse("tls://9.9.9.9:8853", None).unwrap(),
        ResolverSpec::Dot { ip: ip("9.9.9.9"), port: 8853, server_name: "9.9.9.9".to_string() }
    );
}

#[test]
fn a_named_host_is_resolved_first() {
    assert_eq!(ResolverSpec::bootstrap("https://dns.example/q"), Some(("dns.example".to_string(), 443)));
    assert_eq!(ResolverSpec::bootstrap("tls://dns.example"), Some(("dns.example".to_string(), 853)));
    assert_eq!(ResolverSpec::bootstrap("https://1.1.1.1"), None);
    assert_eq!(ResolverSpec::bootstrap("9.9.9.9"), None);
    let err = ResolverSpec::parse("https://dns.example/q", None).unwrap_err();
    assert!(err.contains("dns.example"), "{err}");
    match ResolverSpec::parse("https://dns.example/q", Some(ip("10.0.0.1"))).unwrap() {
        ResolverSpec::Doh { ip: a, port, server_name, path } => {
            assert_eq!(a, ip("10.0.0.1"));
            assert_eq!(port, 443);
            assert_eq!(server_name, "dns.example");
            assert_eq!(path, "/q");
        }
        other => panic!("expected DoH, got {other:?}"),
    }
    let err = ResolverSpec::parse("not-an-ip", None).unwrap_err();
    assert_eq!(err, "resolver spec \"not-an-ip\" is not a valid ip[:port]");
}

#[test]
fn either_family_is_enough() {
    let both = Answers { v6: Some(Ok(1)), v4: Some(Ok((0x01020304, None))) };
    assert_eq!(
        resolve_upstream("h", 443, &both).unwrap(),
        ResolvedAddrs::dual(socket("[::1]:443"), socket("1.2.3.4:443"))
    );
    let only4 = Answers { v6: Some(Err("no AAAA".into())), v4: Some(Ok((0x01020304, None))) };
    assert_eq!(resolve_upstream("h", 443, &only4).unwrap(), ResolvedAddrs::single(socket("1.2.3.4:443")));
    let none = Answers { v6: Some(Err("no AAAA".into())), v4: Some(Err("no A".into())) };
    let err = resolve_upstream("h", 443, &none).unwrap_err();
    assert!(err.contains("no AAAA") && err.contains("no A"), "{err}");
    assert!(resolve_all_ips("h", &Some(Err("x".into())), &Some(Err("y".into()))).is_err());
    assert_eq!(
        resolve_all_ips("h", &Some(Ok(vec![0x01020304])), &Some(Err("y".into()))).unwrap(),
        vec![ip("1.2.3.4")]
    );
}

#[test]
fn families_ask_for_their_records() {
    assert_eq!(strategy_for(AddressFamily::Dual), Strategy::Ipv6thenIpv4);
    assert_eq!(strategy_for(AddressFamily::Ipv4), Strategy::Ipv4Only);
    assert_eq!(strategy_for(AddressFamily::Ipv6), Strategy::Ipv6Only);
}

#[test]
fn addresses_read_back_as_they_are_written() {
    for s in ["0.0.0.0", "127.0.0.1", "255.255.255.255", "::", "::1", "2606:4700::1111", "64:ff9b::102:304"] {
        let mut out = String::new();
        push_ip(&mut out, ip(s));
        assert_eq!(out, s);
    }
    for s in ["1.2.3.4:443", "[2606:4700::1]:53"] {
        let mut out = String::new();
        push_socket(&mut out, socket(s));
        assert_eq!(out, s);
    }
    for bad in ["1.2.3", "1.2.3.4.5", "01.2.3.4", "1.2.3.256", ":::", "1::2::3", "12345::", "@a", "g::1"] {
        let cs: Vec<char> = bad.chars().collect();
        assert_eq!(parse_ip(&cs), None, "{bad}");
    }
}
