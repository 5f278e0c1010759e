use rustls::RootCertStore;
use sni_gate::config::{AddressFamily, FailPolicy, RouteType, SniPolicy};
use sni_gate::net::{IpAddr, SocketAddr};
use sni_gate::peek::Inbound;
use sni_gate::proxy::{
    apply_fail, mirror_choice, negotiable_alpn, strip_port, Direction, EchDial, EchNext, EchOutcome, FailAction, Path,
    RouteRuntime, ServerConfigs, Speak, Splice, SpliceEvent, SpliceNext,
};
use sni_gate::time::{Duration, Instant};
use std::sync::Arc;

#[test]
fn strip_port_forms() {
    assert_eq!(strip_port("example.com:443"), "example.com");
    assert_eq!(strip_port("example.com"), "example.com");
    assert_eq!(strip_port("1.2.3.4:443"), "1.2.3.4");
    assert_eq!(strip_port("[::1]:443"), "::1");
    assert_eq!(strip_port("[2a01:4f8::1]:443"), "2a01:4f8::1");
    assert_eq!(strip_port("[::1]"), "::1");
    assert_eq!(strip_port("2a01:4f8::1"), "2a01:4f8::1");
}

#[test]
fn negotiable_alpn_filters_and_reorders() {
    fn v<'a>(s: &[&'a str]) -> Option<Vec<&'a [u8]>> {
        Some(s.iter().map(|x| x.as_bytes()).collect())
    }
    assert_eq!(negotiable_alpn(v(&["http/1.1", "h2"])), vec![b"h2".to_vec(), b"http/1.1".to_vec()]);
    assert_eq!(negotiable_alpn(v(&["h3", "spdy/3", "http/1.1"])), vec![b"http/1.1".to_vec()]);
    assert!(negotiable_alpn(v(&["h3"])).is_empty());
    assert!(negotiable_alpn(None).is_empty());
}

#[derive(Debug)]
struct NoCerts;

impl rustls::server::ResolvesServerCert for NoCerts {
    fn resolve(&self, _hello: rustls::server::ClientHello<'_>) -> Option<Arc<rustls::sign::CertifiedKey>> {
        None
    }
}

fn test_configs() -> ServerConfigs<Arc<rustls::ServerConfig>> {
    let _ = rustls::crypto::aws_lc_rs::default_provider().install_default();
    let base = rustls::ServerConfig::builder().with_no_client_auth().with_cert_resolver(Arc::new(NoCerts));
    let with = |p: Vec<Vec<u8>>| {
        let mut c = base.clone();
        c.alpn_protocols = p;
        Arc::new(c)
    };
    ServerConfigs {
        none: with(Vec::new()),
        h1: with(vec![b"http/1.1".to_vec()]),
        h2: with(vec![b"h2".to_vec()]),
        h2h1: with(vec![b"h2".to_vec(), b"http/1.1".to_vec()]),
        h3: with(vec![b"h3".to_vec()]),
    }
}

#[test]
fn mirror_choice_follows_the_upstream() {
    let configs = test_configs();
    let picked = |sel: Option<&[u8]>, offered: bool| mirror_choice(&configs, sel, offered).alpn_protocols.clone();

    assert_eq!(picked(Some(b"h2"), true), vec![b"h2".to_vec()]);
    assert_eq!(picked(Some(b"http/1.1"), true), vec![b"http/1.1".to_vec()]);
    assert_eq!(picked(None, true), vec![b"http/1.1".to_vec()]);
    assert!(picked(None, false).is_empty());
    assert_eq!(picked(Some(b"h3"), true), vec![b"http/1.1".to_vec()]);
}

fn route(kind: RouteType, host: Option<&str>, sni: SniPolicy, http2: bool) -> RouteRuntime {
    RouteRuntime {
        name: "web".to_string(),
        route_type: kind,
        upstream_host: host.map(str::to_string),
        upstream_port: 443,
        sni_policy: sni,
        http2,
        require_ech: true,
        max_retries: 2,
        connect_timeout: Duration::from_secs(15),
        idle_timeout: Duration::from_secs(60),
        address_family: AddressFamily::Dual,
        nat64: None,
        fail: FailPolicy::Close,
    }
}

fn tls(name: &str) -> Inbound {
    Inbound::Tls { sni: Some(name.to_string()) }
}

#[test]
fn a_connection_is_planned_from_its_first_bytes() {
    let mirrored = route(RouteType::Tls, None, SniPolicy::Reflect, true).plan(&tls("a.test"));
    assert_eq!(mirrored.path, Path::Mirrored);
    assert_eq!(mirrored.sni.as_deref(), Some("a.test"));
    assert_eq!(mirrored.dial_host.as_deref(), Some("a.test"));

    let fixed = route(RouteType::Ech, Some("up.test"), SniPolicy::Fixed("n.test".into()), false);
    let plan = fixed.plan(&Inbound::Http { host: Some("a.test:8080".to_string()) });
    assert_eq!(plan.path, Path::Plaintext);
    assert_eq!(plan.sni.as_deref(), Some("n.test"));
    assert_eq!(plan.dial_host.as_deref(), Some("up.test"));

    assert_eq!(fixed.plan(&tls("a.test")).path, Path::Terminated);
    assert_eq!(route(RouteType::Http, None, SniPolicy::Reflect, true).plan(&tls("a.test")).path, Path::Terminated);
    assert_eq!(route(RouteType::Raw, None, SniPolicy::Reflect, true).plan(&tls("a.test")).path, Path::Raw);
    let omit = route(RouteType::Tls, None, SniPolicy::Omit, false).plan(&tls("a.test"));
    assert_eq!(omit.sni.as_deref(), Some("a.test"));
}

#[test]
fn what_is_missing_is_said() {
    let r = route(RouteType::Ech, None, SniPolicy::Reflect, false);
    assert_eq!(
        r.host_to_dial(&None).unwrap_err(),
        "route web reflects the source SNI/Host upstream, but the connection presented none"
    );
    assert_eq!(r.host_to_dial(&Some("h".into())).unwrap(), "h");
    assert_eq!(
        r.speak(&None, "h").unwrap_err(),
        "ech route web: the connection carried no SNI/Host to use as the inner name, and no override_sni supplies one"
    );
    assert_eq!(r.speak(&Some("n".into()), "h").unwrap(), Speak::Ech("n".into()));
    let t = route(RouteType::Tls, None, SniPolicy::Reflect, false);
    assert_eq!(t.speak(&None, "h").unwrap(), Speak::Tls("h".into()));
    let h = route(RouteType::Http, None, SniPolicy::Reflect, false);
    assert_eq!(h.speak(&None, "h").unwrap(), Speak::Clear);
}

#[test]
fn a_cleartext_upstream_lets_the_client_choose() {
    let configs = ServerConfigs { none: 0, h1: 1, h2: 2, h2h1: 3, h3: 4 };
    assert_eq!(*route(RouteType::Http, None, SniPolicy::Reflect, true).terminated_config(&configs), 3);
    assert_eq!(*route(RouteType::Http, None, SniPolicy::Reflect, false).terminated_config(&configs), 1);
    assert_eq!(*route(RouteType::Tls, None, SniPolicy::Reflect, true).terminated_config(&configs), 1);
}

#[test]
fn a_dial_leaves_out_the_name_only_where_asked() {
    let roots = Arc::new(RootCertStore::empty());
    let offer = vec![b"h2".to_vec()];
    let quiet = route(RouteType::Tls, None, SniPolicy::Omit, true).tls_config(&roots, &offer);
    assert!(!quiet.enable_sni);
    assert_eq!(quiet.alpn_protocols, offer);
    let plain = route(RouteType::Tls, None, SniPolicy::Reflect, true).tls_config(&roots, &Vec::new());
    assert!(plain.enable_sni);
    assert!(plain.alpn_protocols.is_empty());
}

#[test]
fn coverage_is_learned_from_the_name_that_was_asked_for() {
    let sni = Some("a.test".to_string());
    assert_eq!(route(RouteType::Tls, None, SniPolicy::Reflect, true).coverage_for(&sni), sni);
    assert_eq!(route(RouteType::Tls, None, SniPolicy::Omit, true).coverage_for(&sni), None);
    let fixed = route(RouteType::Tls, None, SniPolicy::Fixed("n".into()), true);
    assert_eq!(fixed.coverage_for(&sni), None);
}

#[test]
fn a_rejected_offer_is_retried_within_limits() {
    let mut d = EchDial::new(true, 2);
    let no = EchOutcome::Rejected("rejected".into());
    assert!(matches!(d.on_outcome(&no), EchNext::Retry));
    assert!(matches!(d.on_outcome(&no), EchNext::Retry));
    assert!(matches!(d.on_outcome(&no), EchNext::Fail(m) if m == "upstream ECH handshake: rejected"));

    let mut d = EchDial::new(true, 2);
    let done = |accepted: bool| EchOutcome::Done { accepted, status: "Grease".into() };
    assert!(matches!(d.on_outcome(&done(true)), EchNext::Use));
    assert!(matches!(d.on_outcome(&done(false)), EchNext::Fail(m) if m == "ECH required but status was Grease"));
    assert!(matches!(EchDial::new(false, 0).on_outcome(&done(false)), EchNext::Use));
    assert!(matches!(
        d.on_outcome(&EchOutcome::TimedOut),
        EchNext::Fail(m) if m == "upstream ECH handshake timed out"
    ));
    assert!(matches!(
        d.on_outcome(&EchOutcome::Failed("reset".into())),
        EchNext::Fail(m) if m == "upstream ECH handshake: reset"
    ));
}

fn at(secs: u64) -> Instant {
    Instant { nanos: secs as u128 * 1_000_000_000 }
}

#[test]
fn splice_survives_half_close_both_directions() {
    let mut s = Splice::start(Duration::from_secs(5), at(0));
    assert!(matches!(s.on_event(&SpliceEvent::Chunk(Direction::Up), at(1)), SpliceNext::Continue));
    assert!(matches!(s.on_event(&SpliceEvent::Closed(Direction::Up), at(1)), SpliceNext::Continue));
    for t in 2..20 {
        assert!(matches!(s.on_event(&SpliceEvent::Chunk(Direction::Down), at(t)), SpliceNext::Continue));
    }
    assert!(matches!(s.on_event(&SpliceEvent::Closed(Direction::Down), at(20)), SpliceNext::Finished));
}

#[test]
fn an_idle_splice_ends_and_an_active_one_does_not() {
    let mut s = Splice::start(Duration::from_secs(5), at(0));
    assert!(matches!(s.on_event(&SpliceEvent::Tick, at(4)), SpliceNext::Continue));
    assert!(matches!(s.on_event(&SpliceEvent::Chunk(Direction::Down), at(4)), SpliceNext::Continue));
    assert!(matches!(s.on_event(&SpliceEvent::Tick, at(8)), SpliceNext::Continue));
    assert!(matches!(s.on_event(&SpliceEvent::Tick, at(9)), SpliceNext::Broken(m) if m == "idle timeout"));
    let mut forever = Splice::start(Duration::zero(), at(0));
    assert!(matches!(forever.on_event(&SpliceEvent::Tick, at(1_000_000)), SpliceNext::Continue));
}

#[test]
fn a_broken_direction_is_reported_when_both_are_over() {
    let mut s = Splice::start(Duration::from_secs(5), at(0));
    let broken = SpliceEvent::Failed(Direction::Down, "reset".into());
    assert!(matches!(s.on_event(&broken, at(1)), SpliceNext::Continue));
    assert!(matches!(
        s.on_event(&SpliceEvent::Closed(Direction::Up), at(2)),
        SpliceNext::Broken(m) if m == "proxying data (u->c): reset"
    ));
}

#[test]
fn fail_policies_say_where_a_connection_goes() {
    let to = SocketAddr::new(IpAddr::V4(0x7f000001), 80);
    assert_eq!(apply_fail(&FailPolicy::Close, &tls("a"), "x").unwrap(), FailAction::Close);
    assert_eq!(
        apply_fail(&FailPolicy::Passthrough { addr: to }, &tls("a"), "x").unwrap(),
        FailAction::Splice { to, connect_timeout: Duration::from_secs(10), idle: Duration::from_secs(120) }
    );
    assert_eq!(
        apply_fail(&FailPolicy::SystemOutbound, &tls("a.test"), "x").unwrap(),
        FailAction::Outbound { host: "a.test".into(), port: 443, idle: Duration::from_secs(120) }
    );
    let http = Inbound::Http { host: Some("a.test:8080".to_string()) };
    assert_eq!(
        apply_fail(&FailPolicy::SystemOutbound, &http, "x").unwrap(),
        FailAction::Outbound { host: "a.test".into(), port: 80, idle: Duration::from_secs(120) }
    );
    assert_eq!(
        apply_fail(&FailPolicy::SystemOutbound, &Inbound::Unknown, "unmatched").unwrap_err(),
        "unmatched: no SNI/Host for system-outbound"
    );
}
