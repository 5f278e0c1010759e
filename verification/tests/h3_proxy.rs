use sni_gate::config::{AddressFamily, FailPolicy, RouteType, SniPolicy};
use sni_gate::h3_proxy::pool::{UpstreamPool, UpstreamPoolKey};
use sni_gate::h3_proxy::{
    authority_reuses_upstream, check_protocol, h3_offer, is_ech_reject_reason, offers_ech, upstream_failure_status,
    upstream_identity, H3ProxyContext, RequestStep,
};
use sni_gate::net::{IpAddr, SocketAddr};
use sni_gate::proxy::RouteRuntime;
use sni_gate::time::{Duration, Instant};

const FRONT_SNI: &str = "front.h3.test";
const SIBLING_SNI: &str = "sibling.h3.test";
const OTHER_SNI: &str = "other.h3.test";

#[test]
fn same_route_coalescing_requires_stable_upstream_identity() {
    assert!(authority_reuses_upstream(Some(0), 0, FRONT_SNI, FRONT_SNI, true, true));
    assert!(!authority_reuses_upstream(Some(0), 0, SIBLING_SNI, FRONT_SNI, true, false));
    assert!(!authority_reuses_upstream(Some(0), 0, SIBLING_SNI, FRONT_SNI, false, true));
    assert!(authority_reuses_upstream(Some(0), 0, SIBLING_SNI, FRONT_SNI, false, false));
    assert!(!authority_reuses_upstream(Some(1), 0, OTHER_SNI, FRONT_SNI, false, false));
}

fn base_key() -> UpstreamPoolKey {
    UpstreamPoolKey {
        listener: SocketAddr::new(IpAddr::V4(0x7f000001), 443),
        route_id: 3,
        host: "origin.example".to_string(),
        port: 443,
        server_name: "origin.example".to_string(),
        ech: false,
    }
}

#[test]
fn upstream_pool_key_is_scoped_by_route_and_tls_identity() {
    let base = base_key();

    assert_eq!(base, base.clone());
    assert!(base.same(&base.clone()));

    let mut other_route = base.clone();
    other_route.route_id += 1;
    assert_ne!(base, other_route);
    assert!(!base.same(&other_route));

    let mut other_host = base.clone();
    other_host.host = "other.example".to_string();
    assert_ne!(base, other_host);
    assert!(!base.same(&other_host));

    let mut other_tls_name = base.clone();
    other_tls_name.server_name = "tls.example".to_string();
    assert_ne!(base, other_tls_name);
    assert!(!base.same(&other_tls_name));

    let mut ech = base.clone();
    ech.ech = true;
    assert_ne!(base, ech);
    assert!(!base.same(&ech));
}

#[test]
fn upstream_failures_map_to_gateway_statuses() {
    assert_eq!(upstream_failure_status(true), 504);
    assert_eq!(upstream_failure_status(false), 502);
}

fn route(kind: RouteType, host: Option<&str>, sni: SniPolicy) -> RouteRuntime {
    RouteRuntime {
        name: "web".to_string(),
        route_type: kind,
        upstream_host: host.map(str::to_string),
        upstream_port: 443,
        sni_policy: sni,
        http2: false,
        require_ech: true,
        max_retries: 2,
        connect_timeout: Duration::from_secs(15),
        idle_timeout: Duration::from_secs(60),
        address_family: AddressFamily::Dual,
        nat64: None,
        fail: FailPolicy::Close,
    }
}

#[test]
fn a_request_for_another_upstream_is_misdirected() {
    let r = route(RouteType::H3, None, SniPolicy::Reflect);
    let cx = H3ProxyContext::new(&r, 0, FRONT_SNI);
    assert_eq!(cx.authority(None), FRONT_SNI);
    assert_eq!(cx.authority(Some(SIBLING_SNI)), SIBLING_SNI);
    assert_eq!(cx.on_request(Some(0), "Front.H3.test"), RequestStep::Forward);
    assert_eq!(cx.on_request(Some(0), SIBLING_SNI), RequestStep::Respond(421));
    let fixed = route(RouteType::H3, Some("up.test"), SniPolicy::Fixed("up.test".into()));
    let cx = H3ProxyContext::new(&fixed, 0, FRONT_SNI);
    assert_eq!(cx.on_request(Some(0), SIBLING_SNI), RequestStep::Forward);
    assert_eq!(cx.on_request(None, SIBLING_SNI), RequestStep::Respond(421));
}

#[test]
fn identity_comes_from_the_route_or_the_handshake() {
    let reflect = route(RouteType::H3, None, SniPolicy::Reflect);
    let i = upstream_identity(&reflect, "a.test").unwrap();
    assert_eq!((i.host.as_str(), i.server_name.as_str()), ("a.test", "a.test"));
    assert_eq!(
        upstream_identity(&reflect, "").unwrap_err(),
        "H3 route web reflects SNI upstream but none was presented"
    );
    let fixed = route(RouteType::H3, Some("up.test"), SniPolicy::Omit);
    let i = upstream_identity(&fixed, "").unwrap();
    assert_eq!((i.host.as_str(), i.server_name.as_str()), ("up.test", "up.test"));
    let i = upstream_identity(&fixed, "a.test").unwrap();
    assert_eq!((i.host.as_str(), i.server_name.as_str()), ("up.test", "a.test"));
    let named = route(RouteType::H3, Some("up.test"), SniPolicy::Fixed("n.test".into()));
    assert_eq!(upstream_identity(&named, "a.test").unwrap().server_name, "n.test");
}

#[test]
fn only_http3_is_taken() {
    assert_eq!(h3_offer(), vec![b"h3".to_vec()]);
    assert!(check_protocol(Some(b"h3")).is_ok());
    for p in [Some(b"h2".as_slice()), None] {
        assert_eq!(check_protocol(p).unwrap_err(), "upstream QUIC connection did not negotiate h3 ALPN");
    }
    assert_eq!(offers_ech(&route(RouteType::H3, None, SniPolicy::Reflect)), Ok(false));
    assert_eq!(offers_ech(&route(RouteType::H3Ech, None, SniPolicy::Reflect)), Ok(true));
    assert_eq!(
        offers_ech(&route(RouteType::Raw, None, SniPolicy::Reflect)).unwrap_err(),
        "route web is not an HTTP/3 route"
    );
}

#[test]
fn a_rejection_is_told_by_its_reason() {
    assert!(is_ech_reject_reason("peer Rejected our Encrypted Client Hello"));
    assert!(is_ech_reject_reason("server rejected ECH"));
    assert!(!is_ech_reject_reason("certificate rejected"));
    assert!(!is_ech_reject_reason("ECH config missing"));
    assert!(!is_ech_reject_reason(""));
}

fn at(secs: u64) -> Instant {
    Instant { nanos: secs as u128 * 1_000_000_000 }
}

fn key(route_id: usize) -> UpstreamPoolKey {
    let mut k = base_key();
    k.route_id = route_id;
    k
}

#[test]
fn pooled_connections_are_reused_until_they_close_or_age() {
    let addr = SocketAddr::new(IpAddr::V4(1), 443);
    let mut pool: UpstreamPool<u32> = UpstreamPool::new(2, Duration::from_secs(60));
    assert_eq!(pool.reuse(&key(0), at(0)), None);
    let i = pool.adopt(key(0), 10, addr, at(0));
    assert_eq!(*pool.upstream(i), 10);

    let i = pool.reuse(&key(0), at(59)).unwrap();
    assert_eq!(*pool.upstream(i), 10);
    assert_eq!(pool.reuse(&key(0), at(118)), Some(0), "the use at 59 counts");
    assert_eq!(pool.reuse(&key(0), at(178)), None, "a minute without use is too long");

    let i = pool.adopt(key(0), 11, addr, at(200));
    pool.mark_closed(i);
    assert_eq!(pool.reuse(&key(0), at(201)), None, "a closed connection is never reused");
}

#[test]
fn a_connection_made_meanwhile_is_preferred() {
    let addr = SocketAddr::new(IpAddr::V4(1), 443);
    let mut pool: UpstreamPool<u32> = UpstreamPool::new(2, Duration::from_secs(60));
    pool.adopt(key(0), 10, addr, at(0));
    let i = pool.adopt(key(0), 11, addr, at(1));
    assert_eq!(*pool.upstream(i), 10);
    pool.mark_closed(i);
    let i = pool.adopt(key(0), 12, addr, at(2));
    assert_eq!((*pool.upstream(i), pool.len()), (12, 1));
    pool.evict(&key(0));
    assert_eq!(pool.len(), 0);
}

#[test]
fn a_full_pool_drops_the_longest_unused() {
    let addr = SocketAddr::new(IpAddr::V4(1), 443);
    let mut pool: UpstreamPool<u32> = UpstreamPool::new(2, Duration::from_secs(60));
    pool.adopt(key(0), 10, addr, at(0));
    pool.adopt(key(1), 11, addr, at(1));
    assert!(pool.reuse(&key(0), at(2)).is_some());
    pool.adopt(key(2), 12, addr, at(3));
    assert_eq!(pool.len(), 2);
    assert!(pool.reuse(&key(0), at(4)).is_some());
    assert!(pool.reuse(&key(1), at(4)).is_none());
    assert!(pool.reuse(&key(2), at(4)).is_some());
}
