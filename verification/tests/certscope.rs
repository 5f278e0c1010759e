use sni_gate::certscope::{fnv1a, router_fingerprint, sanitize, CertScope, EchIdentity, Forwarding};
use sni_gate::config::{AddressFamily, EchMode, RegexDef, RouteType, SniPolicy};

fn fwd() -> Forwarding {
    Forwarding {
        route_type: RouteType::Ech,
        host: Some("cf.0sm.com".into()),
        port: 443,
        sni: SniPolicy::Reflect,
        family: AddressFamily::Ipv4,
        nat64: None,
        addr_resolver: "dnspod-doh".into(),
        ech: Some(EchIdentity {
            mode: EchMode::Doh,
            domain: Some("cloudflare-ech.com".into()),
            resolver: "system".into(),
            inline_config: false,
        }),
    }
}

fn key(fp: u64, f: &Forwarding) -> String {
    CertScope::new(fp, f).key().to_string()
}

#[test]
fn key_is_readable_and_stable() {
    let a = CertScope::new(7, &fwd());
    let b = CertScope::new(7, &fwd());
    assert_eq!(a, b, "same identity must yield the same scope");
    assert!(a.key().starts_with("ech_cf.0sm.com_443-"), "unexpected key {}", a.key());
    assert!(!a.key().contains('/') && !a.key().contains('\\'));
}

#[test]
fn every_forwarding_field_changes_the_scope() {
    let base = key(1, &fwd());
    let mut cases: Vec<(&str, Forwarding)> = Vec::new();

    let mut f = fwd();
    f.route_type = RouteType::Tls;
    cases.push(("route_type", f));
    let mut f = fwd();
    f.host = None;
    cases.push(("host->reflect", f));
    let mut f = fwd();
    f.host = Some("other.example".into());
    cases.push(("host", f));
    let mut f = fwd();
    f.port = 8443;
    cases.push(("port", f));
    let mut f = fwd();
    f.sni = SniPolicy::Omit;
    cases.push(("sni omit", f));
    let mut f = fwd();
    f.sni = SniPolicy::Fixed("x.example".into());
    cases.push(("sni fixed", f));
    let mut f = fwd();
    f.family = AddressFamily::Dual;
    cases.push(("family", f));
    let mut f = fwd();
    f.nat64 = Some("64:ff9b::".into());
    cases.push(("nat64", f));
    let mut f = fwd();
    f.addr_resolver = "system".into();
    cases.push(("addr_resolver", f));
    let mut f = fwd();
    f.ech = None;
    cases.push(("ech absent", f));
    let mut f = fwd();
    f.ech.as_mut().unwrap().mode = EchMode::Static;
    cases.push(("ech mode", f));
    let mut f = fwd();
    f.ech.as_mut().unwrap().domain = None;
    cases.push(("ech domain", f));
    let mut f = fwd();
    f.ech.as_mut().unwrap().resolver = "cloudflare-doh".into();
    cases.push(("ech resolver", f));
    let mut f = fwd();
    f.ech.as_mut().unwrap().inline_config = true;
    cases.push(("ech inline", f));

    for (what, f) in cases {
        assert_ne!(base, key(1, &f), "changing {what} must change the scope");
    }
}

#[test]
fn routing_table_is_part_of_the_scope() {
    assert_ne!(CertScope::new(1, &fwd()), CertScope::new(2, &fwd()));
}

fn list(items: &[&str]) -> Vec<String> {
    items.iter().map(|s| s.to_string()).collect()
}

#[test]
fn router_fingerprint_ignores_pattern_order_but_not_content() {
    let empty: Vec<(String, RegexDef)> = Vec::new();

    let a = router_fingerprint(&vec![list(&[".a.test", ".b.test"])], Some(0), &empty);
    let b = router_fingerprint(&vec![list(&[".b.test", ".a.test"])], Some(0), &empty);
    assert_eq!(a, b, "pattern order within a route must not matter");

    let c = router_fingerprint(&vec![list(&[".a.test", ".c.test"])], Some(0), &empty);
    assert_ne!(a, c, "different patterns must differ");

    let d = router_fingerprint(&vec![list(&[".a.test", ".b.test"])], None, &empty);
    assert_ne!(a, d, "presence of a default route must differ");

    let e = router_fingerprint(&vec![list(&[".a.test"]), list(&[".b.test"])], Some(0), &empty);
    let f = router_fingerprint(&vec![list(&[".b.test"]), list(&[".a.test"])], Some(0), &empty);
    assert_ne!(e, f);
}

fn cdn(pattern: &str, scopes: &[&str]) -> Vec<(String, RegexDef)> {
    vec![("cdn".to_string(), RegexDef { pattern: pattern.to_string(), scope_suffix: list(scopes) })]
}

#[test]
fn router_fingerprint_includes_regex_scopes() {
    let empty: Vec<(String, RegexDef)> = Vec::new();
    let patterns = vec![list(&["@cdn"])];

    let base = router_fingerprint(&patterns, None, &empty);

    let fp1 = router_fingerprint(&patterns, None, &cdn("^cdn-[0-9]+\\.example\\.com$", &["*.example.com"]));
    assert_ne!(base, fp1, "adding regex must change fingerprint");

    let fp2 = router_fingerprint(&patterns, None, &cdn("^cdn-[0-9]+\\.example\\.com$", &[".example.com"]));
    assert_ne!(fp1, fp2, "changing scope_suffix must change fingerprint");

    let fp3 = router_fingerprint(&patterns, None, &cdn("^cdn-[a-z]+\\.example\\.com$", &["*.example.com"]));
    assert_ne!(fp1, fp3, "changing pattern must change fingerprint");

    let fp4 = router_fingerprint(&patterns, None, &cdn("^test$", &["*.a.com", "*.b.com"]));
    let fp5 = router_fingerprint(&patterns, None, &cdn("^test$", &["*.b.com", "*.a.com"]));
    assert_eq!(fp4, fp5, "scope_suffix order should not matter");
}

#[test]
fn regexes_are_fingerprinted_by_name() {
    let mut table = cdn("^a$", &["*.a.com"]);
    table.push(("img".to_string(), RegexDef { pattern: "^b$".into(), scope_suffix: list(&["*.b.com"]) }));
    let mut turned = table.clone();
    turned.reverse();
    let patterns = vec![list(&["@cdn", "@img"])];
    assert_eq!(router_fingerprint(&patterns, None, &table), router_fingerprint(&patterns, None, &turned));
}

#[test]
fn sanitize_produces_one_safe_component() {
    assert_eq!(sanitize("ech_cf.0sm.com_443"), "ech_cf.0sm.com_443");
    assert_eq!(sanitize("tls_[2a01:4f8::1]_443"), "tls_2a01_4f8_1_443");
    assert_eq!(sanitize("a//b\\c"), "a_b_c");
    assert_eq!(sanitize("..."), "_");
    assert!(!sanitize("../escape").contains(".."));
}

#[test]
fn the_hash_is_fnv_1a() {
    assert_eq!(fnv1a(b""), 0xcbf29ce484222325);
    assert_eq!(fnv1a(b"a"), 0xaf63dc4c8601ec8c);
    assert_eq!(fnv1a(b"foobar"), 0x85944171f73967e8);
}

#[test]
fn ordinary_identities_are_hashed_as_they_read() {
    assert_eq!(
        fnv1a(
            b"router=0000000000000007;type=ech;host=cf.0sm.com;port=443;sni=reflect;family=Ipv4;nat64=-;\
              addr_resolver=dnspod-doh;ech=mode:Doh,domain:cloudflare-ech.com,resolver:system,inline:false;"
        ),
        0xf82d663b68fd2f01
    );
    assert_eq!(key(7, &fwd()), "ech_cf.0sm.com_443-f82d663b68fd2f01");

    let mut f = fwd();
    f.route_type = RouteType::Tls;
    f.host = None;
    f.sni = SniPolicy::Fixed("x.example".into());
    f.family = AddressFamily::Dual;
    f.nat64 = Some("64:ff9b::/96".into());
    f.addr_resolver = "https://1.1.1.1/dns-query".into();
    f.ech = None;
    assert_eq!(key(7, &f), "tls_reflect_443-5e86455076a2c2f6");

    let empty: Vec<(String, RegexDef)> = Vec::new();
    let patterns = vec![list(&[".b.test", ".a.test"]), list(&[])];
    assert_eq!(router_fingerprint(&patterns, Some(1), &empty), fnv1a(b"0=.a.test,.b.test;1=;default=1"));

    let mut table = vec![("img".to_string(), RegexDef { pattern: "^b{1,2}:$".into(), scope_suffix: list(&[]) })];
    table.append(&mut cdn("^cdn-[0-9]+\\.example\\.com$", &["*.b.com", "*.a.com"]));
    assert_eq!(
        router_fingerprint(&vec![list(&["@img", "@cdn"])], None, &table),
        fnv1a(
            b"0=@cdn,@img;default=none;\
              regexes={cdn:^cdn-[0-9]+\\.example\\.com$[*.a.com,*.b.com];img:^b{1,2}:$[];}"
        )
    );
}

#[test]
fn what_would_blur_a_separator_is_quoted() {
    let empty: Vec<(String, RegexDef)> = Vec::new();
    assert_eq!(
        router_fingerprint(&vec![list(&["a,b", ""])], None, &empty),
        fnv1a(b"0=\"0:,\"3:a,b;default=none")
    );
    assert_eq!(
        router_fingerprint(&vec![list(&["@cdn"])], None, &cdn("a];b:c[", &["d"])),
        fnv1a(b"0=@cdn;default=none;regexes={\"3:cdn7:a];b:c[1[1:d];}")
    );
}

#[test]
fn a_missing_text_is_not_a_text_that_looks_like_it() {
    let mut f = fwd();
    f.host = None;
    let mut g = fwd();
    g.host = Some("reflect".into());
    assert_ne!(CertScope::new(1, &f), CertScope::new(1, &g));

    let mut f = fwd();
    f.nat64 = None;
    let mut g = fwd();
    g.nat64 = Some("-".into());
    assert_ne!(CertScope::new(1, &f), CertScope::new(1, &g));

    let mut f = fwd();
    f.ech.as_mut().unwrap().domain = None;
    let mut g = fwd();
    g.ech.as_mut().unwrap().domain = Some("-".into());
    assert_ne!(CertScope::new(1, &f), CertScope::new(1, &g));
}

#[test]
fn separators_within_a_text_do_not_move_its_end() {
    let mut f = fwd();
    f.host = Some("h;port=1".into());
    f.addr_resolver = "r".into();
    let mut g = fwd();
    g.host = Some("h".into());
    g.addr_resolver = "r;port=1".into();
    assert_ne!(CertScope::new(1, &f), CertScope::new(1, &g));

    let empty: Vec<(String, RegexDef)> = Vec::new();
    assert_ne!(
        router_fingerprint(&vec![list(&["a.test,b.test"])], None, &empty),
        router_fingerprint(&vec![list(&["a.test", "b.test"])], None, &empty)
    );
    assert_ne!(
        router_fingerprint(&vec![list(&["a.test"]), list(&[])], None, &empty),
        router_fingerprint(&vec![list(&[]), list(&["a.test"])], None, &empty)
    );
    let patterns = vec![list(&["@cdn"])];
    assert_ne!(
        router_fingerprint(&patterns, None, &cdn("^a$", &["a.com,b.com"])),
        router_fingerprint(&patterns, None, &cdn("^a$", &["a.com", "b.com"]))
    );
    assert_ne!(
        router_fingerprint(&patterns, None, &cdn("^a$[x", &["y"])),
        router_fingerprint(&patterns, None, &cdn("^a$", &["x[y"]))
    );
}

#[test]
fn sanitizing_twice_is_sanitizing_once() {
    for s in ["", "...", "a//b\\c", ".x.", "tls_[2a01:4f8::1]_443", "\u{e9}\u{e9}-\u{e9}", "_._"] {
        let once = sanitize(s);
        assert_eq!(sanitize(&once), once);
    }
}
