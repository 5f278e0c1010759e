use rustls::RootCertStore;
use sni_gate::config::{AddressFamily, Config, EchMode, EffectiveEch, EffectiveResolver, SniPolicy};
use sni_gate::dns::Strategy;
use sni_gate::dns_resolvers::{
    first_addr, helper_for, refresh_period, Built, Dial, DnsResolver, EchNeed, Endpoint, Helper, NameServer,
    RebuildCause, ResolverPlan,
};
use sni_gate::ech::HttpsRecord;
use sni_gate::net::{IpAddr, SocketAddr};
use sni_gate::time::Duration;
use std::sync::Arc;

#[test]
fn parses_system() {
    assert_eq!(Endpoint::parse("system").unwrap(), Endpoint::System);
    assert_eq!(Endpoint::parse("SYSTEM").unwrap(), Endpoint::System);
    assert_eq!(Endpoint::parse("").unwrap(), Endpoint::System);
    assert_eq!(Endpoint::parse("  ").unwrap(), Endpoint::System);
}

#[test]
fn doh_host_is_kept_verbatim_and_not_resolved() {
    let e = Endpoint::parse("https://dns.cloudflare.com/dns-query").unwrap();
    assert_eq!(
        e,
        Endpoint::Doh { host: "dns.cloudflare.com".into(), port: 443, path: "/dns-query".into() }
    );
    assert_eq!(e.host(), Some("dns.cloudflare.com"));
    assert!(e.is_tls());
}

#[test]
fn unresolvable_doh_host_still_parses() {
    let e = Endpoint::parse("https://blocked.invalid/dns-query").unwrap();
    assert_eq!(e.host(), Some("blocked.invalid"));
}

#[test]
fn doh_default_path_and_explicit_port() {
    assert_eq!(
        Endpoint::parse("https://example.test").unwrap(),
        Endpoint::Doh { host: "example.test".into(), port: 443, path: "/dns-query".into() }
    );
    assert_eq!(
        Endpoint::parse("https://example.test:8443/query").unwrap(),
        Endpoint::Doh { host: "example.test".into(), port: 8443, path: "/query".into() }
    );
}

#[test]
fn parses_dot_with_default_and_explicit_port() {
    assert_eq!(
        Endpoint::parse("tls://one.one.one.one").unwrap(),
        Endpoint::Dot { host: "one.one.one.one".into(), port: 853 }
    );
    assert_eq!(
        Endpoint::parse("tls://dot.test:8853").unwrap(),
        Endpoint::Dot { host: "dot.test".into(), port: 8853 }
    );
}

#[test]
fn parses_plain_forms() {
    let expect = |target: &str, port: u16| Endpoint::Plain { target: target.to_string(), port };
    assert_eq!(Endpoint::parse("1.1.1.1").unwrap(), expect("1.1.1.1", 53));
    assert_eq!(Endpoint::parse("udp://8.8.8.8:5353").unwrap(), expect("8.8.8.8", 5353));
    assert_eq!(Endpoint::parse("tcp://9.9.9.9").unwrap(), expect("9.9.9.9", 53));
    assert_eq!(
        Endpoint::parse("[2606:4700:4700::1111]:5353").unwrap(),
        expect("2606:4700:4700::1111", 5353)
    );
    assert_eq!(Endpoint::parse("udp://dns.example:5353").unwrap(), expect("dns.example", 5353));
    let e = Endpoint::parse("1.1.1.1").unwrap();
    assert_eq!(e.host(), None);
    assert!(!e.is_tls());
    let e = Endpoint::parse("udp://dns.example:53").unwrap();
    assert_eq!(e.host(), Some("dns.example"));
}

#[test]
fn bare_word_is_not_an_endpoint_or_reference() {
    for s in ["cf-doh", "boot", "my-resolver", "not-an-ip"] {
        assert!(Endpoint::parse(s).is_err(), "{s:?} must not parse as an endpoint");
        assert!(!Config::is_resolver_ref(s), "{s:?} without @ prefix must not be a resolver reference");
    }
    for s in ["@cf-doh", "@boot", "@my-resolver"] {
        assert!(Config::is_resolver_ref(s), "{s:?} with @ prefix must be a resolver reference");
        assert!(Endpoint::parse(s).is_err(), "{s:?} must not parse as an endpoint");
    }
}

#[test]
fn plain_endpoint_with_prefix_accepts_hostname() {
    let e = Endpoint::parse("udp://dns.example.test:5353").unwrap();
    assert_eq!(e.host(), Some("dns.example.test"));
    let e = Endpoint::parse("tcp://resolver.example:53").unwrap();
    assert_eq!(e.host(), Some("resolver.example"));
}

#[test]
fn missing_host_is_rejected() {
    assert!(Endpoint::parse("https:///dns-query").is_err());
    assert!(Endpoint::parse("tls://").is_err());
}

#[test]
fn refused_endpoints_say_why() {
    assert_eq!(Endpoint::parse("tls://").unwrap_err(), "endpoint \"tls://\" has no host");
    assert_eq!(Endpoint::parse("udp://dns.example:99999").unwrap_err(), "invalid port");
    assert_eq!(
        Endpoint::parse("boot").unwrap_err(),
        "endpoint \"boot\" is not a valid ip[:port]. Plain DNS without udp:// or tcp:// prefix requires a \
         literal IP address. Use udp://boot to specify a hostname, or https:// / tls:// for encrypted DNS"
    );
    assert_eq!(Endpoint::parse("https://h").unwrap().kind(), "DoH");
    assert_eq!(Endpoint::parse("tls://h").unwrap().kind(), "DoT");
    assert_eq!(Endpoint::parse("9.9.9.9").unwrap().kind(), "plain DNS");
    assert_eq!(Endpoint::System.kind(), "system");
    assert_eq!(Endpoint::System.port(), 53);
}

fn settings(endpoint: &str) -> EffectiveResolver {
    EffectiveResolver {
        name: "r".to_string(),
        endpoint: endpoint.to_string(),
        upstream: None,
        sni_policy: SniPolicy::Reflect,
        bootstrap: None,
        address_family: AddressFamily::Dual,
        nat64_prefix: None,
        connect_timeout: Duration::from_secs(15),
        ech: None,
        require_ech: true,
        ech_refresh: Duration::from_secs(3600),
        ech_resolver: None,
    }
}

fn plan_targets(endpoint: &str, upstream: Option<&str>, override_sni: Option<&str>) -> (String, u16, Option<String>) {
    let mut eff = settings(endpoint);
    eff.upstream = upstream.map(str::to_string);
    eff.sni_policy = SniPolicy::resolve(override_sni);
    let plan = ResolverPlan::new(&eff).unwrap();
    (plan.dial_host, plan.dial_port, plan.server_name)
}

#[test]
fn dial_target_and_tls_name_are_independent() {
    let endpoint = "https://dns.blocked.test/dns-query";

    let (host, port, name) = plan_targets(endpoint, None, None);
    assert_eq!((host.as_str(), port), ("dns.blocked.test", 443));
    assert_eq!(name.as_deref(), Some("dns.blocked.test"));

    let (host, port, name) = plan_targets(endpoint, Some("cdn.edge.test"), None);
    assert_eq!((host.as_str(), port), ("cdn.edge.test", 443));
    assert_eq!(
        name.as_deref(),
        Some("dns.blocked.test"),
        "overriding the dial target must not move the TLS name"
    );

    let (host, port, _) = plan_targets(endpoint, Some("8443"), None);
    assert_eq!((host.as_str(), port), ("dns.blocked.test", 8443));

    let (host, port, _) = plan_targets(endpoint, Some("cdn.edge.test:8443"), None);
    assert_eq!((host.as_str(), port), ("cdn.edge.test", 8443));

    let (host, _, name) = plan_targets(endpoint, None, Some("other.test"));
    assert_eq!(host.as_str(), "dns.blocked.test");
    assert_eq!(name.as_deref(), Some("other.test"));
}

#[test]
fn omitted_sni_keeps_the_name_for_verification() {
    let policy = SniPolicy::resolve(Some(""));
    assert_eq!(policy, SniPolicy::Omit);
    let (_, _, name) = plan_targets("tls://dot.test", None, Some(""));
    assert_eq!(name.as_deref(), Some("dot.test"));
}

#[test]
fn a_transport_without_tls_has_no_name_and_the_systems_no_host() {
    let (host, port, name) = plan_targets("udp://dns.example:5353", None, Some("other.test"));
    assert_eq!((host.as_str(), port, name), ("dns.example", 5353, None));
    let (host, _, name) = plan_targets("system", Some("elsewhere.test:5353"), None);
    assert_eq!((host.as_str(), name), ("", None));
}

#[test]
fn a_bad_upstream_is_reported_under_its_section() {
    let mut eff = settings("udp://1.1.1.1");
    eff.upstream = Some("a.com:bad".to_string());
    let err = ResolverPlan::new(&eff).unwrap_err();
    assert_eq!(err, "[resolvers.r]: invalid upstream \"a.com:bad\"");
}

#[test]
fn a_bad_endpoint_is_reported_under_its_section() {
    let err = ResolverPlan::new(&settings("tls://")).unwrap_err();
    assert_eq!(err, "[resolvers.r] endpoint: endpoint \"tls://\" has no host");
}

#[test]
fn helpers_are_named_written_out_or_the_systems() {
    assert_eq!(helper_for(Some(" @boot ")), Helper::Named("boot".to_string()));
    assert_eq!(helper_for(Some("9.9.9.9")), Helper::Inline("9.9.9.9".to_string()));
    assert_eq!(helper_for(None), Helper::System);
}

#[test]
fn the_dial_address_comes_from_the_endpoint_or_the_bootstrap() {
    let plain = ResolverPlan::new(&settings("9.9.9.9")).unwrap();
    assert_eq!(plain.dial("r:system"), Dial::At(IpAddr::V4(0x09090909)));
    let mut moved = settings("9.9.9.9");
    moved.upstream = Some("dns.elsewhere.test:5353".to_string());
    let moved = ResolverPlan::new(&moved).unwrap();
    assert!(matches!(moved.dial("r:system"), Dial::Resolve(host, _) if host == "dns.elsewhere.test"));
    assert_eq!(moved.dial_port, 5353);
    let system = ResolverPlan::new(&settings("system")).unwrap();
    assert_eq!(system.dial("r:system"), Dial::Nowhere);
    let doh = ResolverPlan::new(&settings("https://dns.test")).unwrap();
    assert_eq!(
        doh.dial("r:system"),
        Dial::Resolve(
            "dns.test".to_string(),
            "[resolvers.r]: resolving dial host \"dns.test\" through bootstrap \"r:system\"".to_string()
        )
    );
    assert_eq!(
        doh.name_server(Some(IpAddr::V4(1))),
        NameServer::Https { ip: IpAddr::V4(1), port: 443, name: "dns.test".into(), path: "/dns-query".into() }
    );
    let dot = ResolverPlan::new(&settings("tls://dns.test")).unwrap();
    assert_eq!(
        dot.name_server(Some(IpAddr::V4(1))),
        NameServer::Tls { ip: IpAddr::V4(1), port: 853, name: "dns.test".into() }
    );
    assert_eq!(plain.name_server(Some(IpAddr::V4(1))), NameServer::UdpAndTcp { ip: IpAddr::V4(1), port: 53 });
    assert_eq!(system.name_server(None), NameServer::System);
    assert!(system.options().hosts_file);
    assert!(!doh.options().hosts_file);
    assert_eq!(doh.options().strategy, Strategy::Ipv6thenIpv4);
    assert_eq!(doh.options().timeout, Duration::from_secs(15));
}

fn with_ech(mode: EchMode, config: Option<&str>) -> EffectiveResolver {
    let mut eff = settings("https://dns.test:8443");
    eff.ech = Some(EffectiveEch { mode, config: config.map(str::to_string), ech_domain: None, max_retries: 2 });
    eff
}

#[test]
fn a_resolver_looks_up_its_own_configuration() {
    let plan = ResolverPlan::new(&with_ech(EchMode::Doh, None)).unwrap();
    assert_eq!(plan.ech_need().unwrap(), EchNeed::Lookup("_8443._https.dns.test".to_string()));
    let ech = plan.ech.clone().unwrap();

    let records = vec![HttpsRecord { ttl: 60, ech: vec![vec![1, 2, 3]] }];
    assert_eq!(plan.ech_list(&ech, "n", &Ok(records)).unwrap(), Some(vec![1, 2, 3]));
    let err = plan.ech_list(&ech, "n", &Ok(Vec::new())).unwrap_err();
    assert_eq!(err, "[resolvers.r]: require_ech is set but no ECHConfig is published for \"n\"");
    let err = plan.ech_list(&ech, "n", &Err("refused".to_string())).unwrap_err();
    assert_eq!(err, "[resolvers.r]: acquiring ECHConfig: refused");

    let inline = ResolverPlan::new(&with_ech(EchMode::Static, Some(" AQID "))).unwrap();
    assert!(matches!(inline.ech_need().unwrap(), EchNeed::Inline(_)));
    let ech = inline.ech.clone().unwrap();
    assert_eq!(inline.ech_list(&ech, "n", &Ok(Vec::new())).unwrap(), Some(vec![1, 2, 3]));

    let none = ResolverPlan::new(&settings("https://dns.test")).unwrap();
    assert_eq!(none.ech_need().unwrap(), EchNeed::Nothing);

    let mut nameless = with_ech(EchMode::Doh, None);
    nameless.endpoint = "9.9.9.9".to_string();
    let err = ResolverPlan::new(&nameless).unwrap().ech_need().unwrap_err();
    assert_eq!(err, "[resolvers.r.ech]: no name to look up an ECHConfig for; set `ech_domain`");
}

#[test]
fn tls_is_customized_only_where_it_must_be() {
    let roots = Arc::new(RootCertStore::empty());
    let plain = ResolverPlan::new(&settings("https://dns.test")).unwrap();
    assert!(plain.tls_config(&None, &roots).unwrap().is_none());

    let mut quiet = settings("https://dns.test");
    quiet.sni_policy = SniPolicy::Omit;
    let config = ResolverPlan::new(&quiet).unwrap().tls_config(&None, &roots).unwrap().unwrap();
    assert!(!config.enable_sni);
    assert!(config.alpn_protocols.is_empty());

    let grease = ResolverPlan::new(&with_ech(EchMode::Doh, None)).unwrap();
    let config = grease.tls_config(&None, &roots).unwrap().unwrap();
    assert!(config.enable_sni);
    assert!(grease.tls_config(&Some(vec![1, 2, 3]), &roots).is_err());
}

fn live(max_retries: u32) -> DnsResolver<u32> {
    let mut eff = with_ech(EchMode::Doh, None);
    eff.ech.as_mut().unwrap().max_retries = max_retries;
    let plan = ResolverPlan::new(&eff).unwrap();
    DnsResolver::new("r".to_string(), 7, Some(plan), Some(vec![1]))
}

#[test]
fn one_rebuild_serves_every_query_that_saw_a_generation() {
    let mut r = live(2);
    assert_eq!(r.label(), "r");
    let seen = r.generation();
    assert!(r.wants_rebuild(seen));
    assert!(r.on_built(RebuildCause::Rejected, Ok(Built { resolver: 8, ech_bytes: Some(vec![1]) })));
    assert_eq!(*r.snapshot(), 8);
    assert_eq!(r.generation(), 1);
    assert!(!r.wants_rebuild(seen), "the others use what the first has built");
    assert_eq!(RebuildCause::Rejected.as_str(), "ech-rejected");
    assert_eq!(RebuildCause::Rotation.as_str(), "ech-rotation");
}

#[test]
fn an_unchanged_rotation_or_a_failed_build_keeps_the_resolver() {
    let mut r = live(2);
    assert!(!r.on_built(RebuildCause::Rotation, Ok(Built { resolver: 8, ech_bytes: Some(vec![1]) })));
    assert!(!r.on_built(RebuildCause::Rejected, Err("down".to_string())));
    assert_eq!((*r.snapshot(), r.generation()), (7, 0));
    assert!(r.on_built(RebuildCause::Rotation, Ok(Built { resolver: 9, ech_bytes: Some(vec![2]) })));
    assert_eq!((*r.snapshot(), r.generation()), (9, 1));
}

#[test]
fn a_query_is_retried_within_the_plan() {
    let r = live(2);
    assert_eq!(r.next_attempt(0, true), Some(1));
    assert_eq!(r.next_attempt(1, true), Some(2));
    assert_eq!(r.next_attempt(2, true), None);
    assert_eq!(r.next_attempt(0, false), None);
    let inline: DnsResolver<u32> = DnsResolver::new("x".to_string(), 1, None, None);
    assert_eq!(inline.next_attempt(0, true), None);
    assert!(!inline.wants_rebuild(0));
}

#[test]
fn refreshes_are_kept_apart() {
    assert_eq!(refresh_period(Duration::zero()), Duration::from_secs(5));
    assert_eq!(refresh_period(Duration::from_secs(60)), Duration::from_secs(60));
    let a = SocketAddr::new(IpAddr::V4(1), 2);
    assert_eq!(first_addr("h", &vec![a]).unwrap(), a);
    assert_eq!(first_addr("h", &Vec::new()).unwrap_err(), "no address for h");
}
