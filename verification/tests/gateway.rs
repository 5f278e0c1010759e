use sni_gate::config::{
    AddressFamily, CaConfig, CacheConfig, CommonOpts, Config, EchConfig, EchMode, FailPolicy, Global, H2Probe,
    Http2Config, IssuanceConfig, Listener, PslConfig, RegexDef, Route, RouteType, SniPolicy, StoreConfig,
};
use sni_gate::connect::{Race, RaceNext};
use sni_gate::gateway::overlap::raw_overlaps;
use sni_gate::gateway::probes::{ProbeNote, Probes};
use sni_gate::gateway::{
    build_listener, build_route, get_resolver, runtime_route_type, ListenerTransport, ResolverSource,
};
use sni_gate::net::{IpAddr, SocketAddr};
use sni_gate::psl::{after_download, check_interval, load_initial, update_due, watches_file, InitialLoad};
use sni_gate::table::TextMap;
use sni_gate::time::Duration;

fn common() -> CommonOpts {
    CommonOpts {
        resolver: None,
        ech_resolver: None,
        addr_resolver: None,
        ech_refresh: None,
        nat64_prefix: None,
        address_family: None,
        require_ech: None,
        connect_timeout: None,
        idle_timeout: None,
    }
}

fn route(name: &str, kind: RouteType, patterns: &[&str]) -> Route {
    Route {
        name: Some(name.to_string()),
        use_template: None,
        route_type: Some(kind),
        match_sni: patterns.iter().map(|s| s.to_string()).collect(),
        upstream: None,
        override_sni: None,
        ech: None,
        http2: None,
        cert_file: None,
        key_file: None,
        common: common(),
        fail: None,
    }
}

fn listener(routes: Vec<Route>, default_route: Option<Route>) -> Listener {
    Listener {
        addr: SocketAddr::new(IpAddr::V4(0), 8443),
        use_template: None,
        common: common(),
        ech: None,
        http2: None,
        routes,
        default_route,
    }
}

fn config(listener: Listener) -> Config {
    Config {
        global: Global {
            log: "info".to_string(),
            common: common(),
            ech: None,
            http2: None,
            unmatched: FailPolicy::Close,
        },
        ca: CaConfig {
            cert_path: "ca.crt".to_string(),
            key_path: "ca.key".to_string(),
            common_name: "sni-gate".to_string(),
            organization: "sni-gate".to_string(),
            country: "US".to_string(),
            leaf_validity_days: 90,
            install_to_system_root: false,
        },
        issuance: IssuanceConfig::default(),
        store: StoreConfig::default(),
        cache: CacheConfig::default(),
        psl: PslConfig::default(),
        templates: Vec::new(),
        resolvers: Vec::new(),
        regexes: Vec::new(),
        listeners: vec![listener],
    }
}

#[test]
fn quic_turns_terminating_routes_into_http3() {
    assert_eq!(runtime_route_type(ListenerTransport::Tcp, RouteType::Tls), Some(RouteType::Tls));
    assert_eq!(runtime_route_type(ListenerTransport::Quic, RouteType::Tls), Some(RouteType::H3));
    assert_eq!(runtime_route_type(ListenerTransport::Quic, RouteType::Ech), Some(RouteType::H3Ech));
    assert_eq!(runtime_route_type(ListenerTransport::Quic, RouteType::Raw), Some(RouteType::Raw));
    assert_eq!(runtime_route_type(ListenerTransport::Quic, RouteType::Http), None);
}

#[test]
fn a_route_is_set_up_from_its_settings() {
    let mut r = route("web", RouteType::Ech, &[".a.test"]);
    r.upstream = Some("cdn.test".to_string());
    r.override_sni = Some("".to_string());
    r.common.addr_resolver = Some("9.9.9.9".to_string());
    r.common.nat64_prefix = Some("64:ff9b::".to_string());
    r.ech = Some(EchConfig {
        mode: Some(EchMode::Static),
        config: Some("AQID".to_string()),
        ech_domain: None,
        require_ech: None,
        max_retries: Some(4),
        ech_refresh: None,
        ech_resolver: None,
    });
    let l = listener(vec![r.clone()], None);
    let cfg = config(l.clone());
    let s = build_route(&cfg, &l, ListenerTransport::Tcp, &r).unwrap();
    assert_eq!(s.runtime.name, "web");
    assert_eq!(s.runtime.upstream_host.as_deref(), Some("cdn.test"));
    assert_eq!(s.runtime.upstream_port, 8443);
    assert_eq!(s.runtime.sni_policy, SniPolicy::Omit);
    assert_eq!(s.runtime.max_retries, 4);
    assert_eq!(s.runtime.nat64.as_deref(), Some("64:ff9b::"));
    let ech = s.ech.unwrap();
    assert_eq!(ech.resolver, "9.9.9.9");
    assert!(!ech.enable_sni);
    let identity = s.forwarding.ech.unwrap();
    assert!(identity.inline_config);
    assert_eq!(identity.resolver, "9.9.9.9");
    assert!(s.probe.is_none());

    r.common.address_family = Some(AddressFamily::Ipv6);
    let s = build_route(&cfg, &l, ListenerTransport::Quic, &r).unwrap();
    assert_eq!(s.runtime.route_type, RouteType::H3Ech);
    assert_eq!(s.runtime.nat64, None, "an IPv6-only route needs no NAT64");
    assert_eq!(s.forwarding.nat64.as_deref(), Some("64:ff9b::"));
}

#[test]
fn a_route_that_cannot_be_set_up_says_why() {
    let l = listener(Vec::new(), None);
    let cfg = config(l.clone());
    let mut untyped = route("web", RouteType::Tls, &[]);
    untyped.route_type = None;
    let err = |r: &Route, t: ListenerTransport| build_route(&cfg, &l, t, r).unwrap_err();
    assert_eq!(err(&untyped, ListenerTransport::Tcp), "route web: missing type");
    let http = route("web", RouteType::Http, &[]);
    assert_eq!(err(&http, ListenerTransport::Quic), "route web: type Http is incompatible with Quic");
    let mut bad = route("web", RouteType::Tls, &[]);
    bad.upstream = Some("a.com:bad".to_string());
    assert_eq!(err(&bad, ListenerTransport::Tcp), "route web: invalid upstream");
    let mut lost = route("web", RouteType::Tls, &[]);
    lost.use_template = Some("nope".to_string());
    assert!(err(&lost, ListenerTransport::Tcp).contains("nope"));
}

#[test]
fn only_fixed_cleartext_backends_are_probed() {
    let mut r = route("web", RouteType::Http, &[]);
    r.http2 = Some(Http2Config {
        enabled: Some(true),
        probe: Some(H2Probe::Require),
        probe_timeout: Some(Duration::from_secs(1)),
    });
    let l = listener(Vec::new(), None);
    let cfg = config(l.clone());
    assert!(build_route(&cfg, &l, ListenerTransport::Tcp, &r).unwrap().probe.is_none());
    r.upstream = Some("b.test:8080".to_string());
    let p = build_route(&cfg, &l, ListenerTransport::Tcp, &r).unwrap().probe.unwrap();
    assert_eq!((p.host.as_str(), p.port, p.policy), ("b.test", 8080, H2Probe::Require));
    assert_eq!(p.budget, Duration::from_secs(1));
}

#[test]
fn a_listener_numbers_its_routes() {
    let routes = vec![route("a", RouteType::Tls, &[".a.test"]), route("b", RouteType::Raw, &[".b.test"])];
    let l = listener(routes, Some(route("rest", RouteType::Http, &[])));
    let cfg = config(l.clone());
    let s = build_listener(&cfg, &l, ListenerTransport::Tcp).unwrap();
    assert_eq!(s.routes.iter().map(|r| r.runtime.name.as_str()).collect::<Vec<_>>(), vec!["a", "b", "rest"]);
    assert_eq!(s.default_id, Some(2));
    assert_eq!(s.patterns, vec![vec![".a.test".to_string()], vec![".b.test".to_string()], Vec::new()]);
    assert_eq!(s.scopes.len(), 3);
    assert_ne!(s.scopes[0].key(), s.scopes[1].key());
}

#[test]
fn raw_routes_that_share_a_domain_are_found() {
    let routes = vec![
        route("tls", RouteType::Tls, &["*.www.shared.test", "other.test"]),
        route("raw", RouteType::Raw, &[".shared.test"]),
        route("re", RouteType::Http, &["@cdn"]),
    ];
    let l = listener(routes, None);
    let mut cfg = config(l.clone());
    cfg.regexes.push((
        "cdn".to_string(),
        RegexDef { pattern: "^x$".to_string(), scope_suffix: vec!["*.shared.test".to_string()] },
    ));
    let s = build_listener(&cfg, &l, ListenerTransport::Tcp).unwrap();
    let runtimes: Vec<_> = s.routes.iter().map(|r| r.runtime.clone()).collect();
    let found = raw_overlaps(&cfg, &s.patterns, &runtimes);
    assert_eq!(found.len(), 1);
    assert_eq!(found[0].route, "raw");
    assert_eq!(found[0].domain, "shared.test");
    assert_eq!(found[0].also_routed_by, vec!["tls".to_string(), "re".to_string()]);
}

#[test]
fn a_backend_is_noted_once_and_refused_by_every_route() {
    let mut p = Probes::new();
    let down: Result<(), String> = Err("refused".to_string());
    assert_eq!(p.on_outcome("a", "h", 80, H2Probe::Warn, &down), ProbeNote::Warned);
    assert_eq!(p.on_outcome("a2", "h", 80, H2Probe::Warn, &down), ProbeNote::Repeated);
    assert!(p.finish().is_ok());
    assert_eq!(p.on_outcome("b", "h", 80, H2Probe::Require, &down), ProbeNote::Refused);
    assert_eq!(
        p.finish().unwrap_err(),
        "h2c probe failed with probe = \"require\":\n  route b: upstream h:80 failed the h2c probe: refused"
    );
    assert_eq!(p.on_outcome("b2", "h", 80, H2Probe::Require, &Ok(())), ProbeNote::Repeated);
    let mut p = Probes::new();
    assert_eq!(p.on_outcome("c", "h", 81, H2Probe::Require, &Ok(())), ProbeNote::Passed);
    assert_eq!(p.on_outcome("d", "g", 80, H2Probe::Require, &down), ProbeNote::Refused);
    assert_eq!(p.on_outcome("e", "g", 82, H2Probe::Require, &down), ProbeNote::Refused);
    assert_eq!(
        p.finish().unwrap_err(),
        "h2c probe failed with probe = \"require\":\n  route d: upstream g:80 failed the h2c probe: refused\n  \
         route e: upstream g:82 failed the h2c probe: refused"
    );
}

#[test]
fn resolvers_are_looked_up_before_they_are_built() {
    let registry = vec!["edge".to_string(), "boot".to_string()];
    let cache = vec![("9.9.9.9".to_string(), AddressFamily::Dual)];
    let get = |spec: &str, family: AddressFamily| get_resolver(&registry, &cache, spec, family);
    assert_eq!(get(" @boot ", AddressFamily::Ipv4), Ok(ResolverSource::Named(1)));
    assert_eq!(get("@nope", AddressFamily::Dual), Err("unknown resolver @nope".to_string()));
    assert_eq!(get("9.9.9.9", AddressFamily::Dual), Ok(ResolverSource::Cached(0)));
    assert_eq!(get("9.9.9.9", AddressFamily::Ipv4), Ok(ResolverSource::Build));
}

#[test]
fn prompt_failure_starts_the_next_candidate_immediately() {
    let addrs = vec![SocketAddr::new(IpAddr::V6(1), 443), SocketAddr::new(IpAddr::V4(1), 443)];
    let mut race = Race::start(&addrs).unwrap();
    assert!(race.has_next());
    assert!(matches!(race.on_error("first candidate failed".to_string()), RaceNext::Launch(1)));
    assert!(!race.has_next());
    match race.on_error("second candidate failed".to_string()) {
        RaceNext::Failed(m) => assert!(m.contains("first candidate failed") && m.contains("second"), "{m}"),
        other => panic!("unexpected {other:?}"),
    }
    assert!(Race::start(&Vec::new()).is_err());
}

#[test]
fn preferred_candidate_keeps_the_head_start() {
    let addrs = vec![SocketAddr::new(IpAddr::V6(1), 443), SocketAddr::new(IpAddr::V4(1), 443)];
    let mut race = Race::start(&addrs).unwrap();
    assert_eq!(race.on_stagger(), Some(1));
    assert_eq!(race.on_stagger(), None);
    assert!(matches!(race.on_error("slow".to_string()), RaceNext::Wait));
}

#[test]
fn the_suffix_list_is_loaded_as_its_source_says() {
    let mut cfg = PslConfig::default();
    assert_eq!(load_initial(&cfg, None), InitialLoad::Embedded);
    cfg.source = sni_gate::config::PslSource::File;
    assert_eq!(load_initial(&cfg, Some(Duration::zero())), InitialLoad::File);
    cfg.auto_update = true;
    assert_eq!(load_initial(&cfg, None), InitialLoad::Download { have_file: false });
    assert_eq!(load_initial(&cfg, Some(Duration::from_secs(60))), InitialLoad::File);
    assert_eq!(load_initial(&cfg, Some(Duration::from_secs(2592001))), InitialLoad::Download { have_file: true });
    assert_eq!(after_download(true, false), InitialLoad::File);
    assert_eq!(after_download(false, true), InitialLoad::File);
    assert_eq!(after_download(false, false), InitialLoad::Embedded);
    assert!(!update_due(None, Duration::from_secs(1)), "an age that cannot be read asks for nothing");
    assert!(update_due(Some(Duration::from_secs(2)), Duration::from_secs(1)));
    assert!(!update_due(Some(Duration::zero()), Duration::from_secs(1)));
    assert!(!watches_file(&cfg));
    cfg.auto_reload = true;
    assert!(watches_file(&cfg));
    cfg.check_interval = Some(Duration::from_secs(5));
    assert_eq!(check_interval(&cfg), Some(Duration::from_secs(5)));
}

#[test]
fn a_text_map_keeps_one_value_for_a_name() {
    let mut m: TextMap<u32> = TextMap::new();
    m.set("a".to_string(), 1);
    m.set("b".to_string(), 2);
    m.set("a".to_string(), 3);
    assert_eq!(m.len(), 2);
    assert_eq!(m.get("a"), Some(&3));
    assert_eq!(m.remove("a"), Some(3));
    assert_eq!(m.get("a"), None);
    assert_eq!(m.remove("a"), None);
}
