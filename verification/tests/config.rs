use sni_gate::config::upstream::{
    listen_addr_from_number, parse_listen_addr, parse_upstream, resolved_upstream_from, split_host_port,
    upstream_from_number, UpstreamSpec,
};
use sni_gate::config::validate::{validate_regex, validate_scope_pattern};
use sni_gate::config::{
    AddressFamily, CaConfig, CacheConfig, CommonOpts, Config, EchConfig, EchMode, EffectiveEch, EffectiveHttp2,
    FailPolicy, Global, H2Probe, Http2Config, IssuanceConfig, IssuanceMode, Listener, PslConfig, RegexDef, ResolverDef,
    Route, RouteType, SniPolicy, StoreConfig, Template,
};
use sni_gate::net::{IpAddr, SocketAddr};
use sni_gate::time::Duration;
use toml::{Table, Value};

// ---------------------------------------------------------------------------
// Reading a document
// ---------------------------------------------------------------------------

fn text(t: &Table, key: &str) -> Option<String> {
    t.get(key).map(|v| v.as_str().expect("a text").to_string())
}

fn span(t: &Table, key: &str) -> Option<Duration> {
    text(t, key).map(|s| Duration::from_secs(s.strip_suffix('s').expect("seconds").parse().unwrap()))
}

fn flag(t: &Table, key: &str) -> Option<bool> {
    t.get(key).map(|v| v.as_bool().expect("a flag"))
}

fn texts(t: &Table, key: &str) -> Vec<String> {
    match t.get(key) {
        Some(v) => v.as_array().unwrap().iter().map(|s| s.as_str().unwrap().to_string()).collect(),
        None => Vec::new(),
    }
}

fn sub<'a>(t: &'a Table, key: &str) -> Option<&'a Table> {
    t.get(key).map(|v| v.as_table().expect("a table"))
}

fn rows(t: &Table, key: &str) -> Vec<Table> {
    match t.get(key) {
        Some(v) => v.as_array().unwrap().iter().map(|x| x.as_table().unwrap().clone()).collect(),
        None => Vec::new(),
    }
}

fn family(t: &Table) -> Option<AddressFamily> {
    text(t, "address_family").map(|s| match s.as_str() {
        "dual" => AddressFamily::Dual,
        "ipv4" => AddressFamily::Ipv4,
        "ipv6" => AddressFamily::Ipv6,
        other => panic!("no family: {other}"),
    })
}

fn common(t: &Table) -> CommonOpts {
    CommonOpts {
        resolver: text(t, "resolver"),
        ech_resolver: text(t, "ech_resolver"),
        addr_resolver: text(t, "addr_resolver"),
        ech_refresh: span(t, "ech_refresh"),
        nat64_prefix: text(t, "nat64_prefix"),
        address_family: family(t),
        require_ech: flag(t, "require_ech"),
        connect_timeout: span(t, "connect_timeout"),
        idle_timeout: span(t, "idle_timeout"),
    }
}

fn ech(t: &Table) -> Option<EchConfig> {
    sub(t, "ech").map(|e| EchConfig {
        mode: text(e, "mode").map(|s| match s.as_str() {
            "doh" => EchMode::Doh,
            "static" => EchMode::Static,
            "doh-with-fallback" => EchMode::DohWithFallback,
            other => panic!("no mode: {other}"),
        }),
        config: text(e, "config"),
        ech_domain: text(e, "ech_domain"),
        require_ech: flag(e, "require_ech"),
        max_retries: e.get("max_retries").map(|v| v.as_integer().unwrap() as u32),
        ech_refresh: span(e, "ech_refresh"),
        ech_resolver: text(e, "ech_resolver"),
    })
}

fn http2(t: &Table) -> Option<Http2Config> {
    sub(t, "http2").map(|h| Http2Config {
        enabled: flag(h, "enabled"),
        probe: text(h, "probe").map(|s| match s.as_str() {
            "off" => H2Probe::Off,
            "warn" => H2Probe::Warn,
            "require" => H2Probe::Require,
            other => panic!("no probe policy: {other}"),
        }),
        probe_timeout: span(h, "probe_timeout"),
    })
}

fn route_type(t: &Table) -> Option<RouteType> {
    text(t, "type").map(|s| match s.as_str() {
        "ech" => RouteType::Ech,
        "tls" => RouteType::Tls,
        "http" => RouteType::Http,
        "raw" => RouteType::Raw,
        other => panic!("no route type: {other}"),
    })
}

fn upstream(t: &Table) -> Option<String> {
    t.get("upstream").map(|v| match v {
        Value::Integer(n) => upstream_from_number(*n).unwrap(),
        Value::String(s) => s.clone(),
        other => panic!("no upstream: {other:?}"),
    })
}

fn route(t: &Table) -> Route {
    Route {
        name: text(t, "name"),
        use_template: text(t, "use"),
        route_type: route_type(t),
        match_sni: texts(t, "match_sni"),
        upstream: upstream(t),
        override_sni: text(t, "override_sni"),
        ech: ech(t),
        http2: http2(t),
        cert_file: text(t, "cert_file"),
        key_file: text(t, "key_file"),
        common: common(t),
        fail: None,
    }
}

fn listener(t: &Table) -> Listener {
    let addr = match &t["addr"] {
        Value::Integer(n) => listen_addr_from_number(*n).unwrap(),
        other => parse_listen_addr(other.as_str().unwrap()).unwrap(),
    };
    Listener {
        addr,
        use_template: text(t, "use"),
        common: common(t),
        ech: ech(t),
        http2: http2(t),
        routes: rows(t, "route").iter().map(route).collect(),
        default_route: sub(t, "default_route").map(route),
    }
}

fn named<T>(t: &Table, key: &str, read: fn(&Table) -> T) -> Vec<(String, T)> {
    match sub(t, key) {
        Some(all) => all.iter().map(|(name, v)| (name.clone(), read(v.as_table().unwrap()))).collect(),
        None => Vec::new(),
    }
}

fn template(t: &Table) -> Template {
    Template {
        route_type: route_type(t),
        upstream: upstream(t),
        override_sni: text(t, "override_sni"),
        cert_file: text(t, "cert_file"),
        key_file: text(t, "key_file"),
        ech: ech(t),
        http2: http2(t),
        common: common(t),
        fail: None,
    }
}

fn resolver(t: &Table) -> ResolverDef {
    ResolverDef {
        endpoint: text(t, "endpoint").unwrap(),
        upstream: upstream(t),
        override_sni: text(t, "override_sni"),
        bootstrap: text(t, "bootstrap"),
        ech: ech(t),
        address_family: family(t),
        nat64_prefix: text(t, "nat64_prefix"),
        connect_timeout: span(t, "connect_timeout"),
    }
}

fn regex(t: &Table) -> RegexDef {
    RegexDef { pattern: text(t, "pattern").unwrap(), scope_suffix: texts(t, "scope_suffix") }
}

fn read(doc: &str) -> Config {
    let t: Table = doc.parse().unwrap();
    let empty = Table::new();
    let g = sub(&t, "global").unwrap_or(&empty);
    let ca = sub(&t, "ca").unwrap();
    Config {
        global: Global {
            log: "info".to_string(),
            common: common(g),
            ech: ech(g),
            http2: http2(g),
            unmatched: FailPolicy::default(),
        },
        ca: CaConfig {
            cert_path: text(ca, "cert_path").unwrap(),
            key_path: text(ca, "key_path").unwrap(),
            common_name: "sni-gate".to_string(),
            organization: "sni-gate".to_string(),
            country: "US".to_string(),
            leaf_validity_days: 90,
            install_to_system_root: false,
        },
        issuance: IssuanceConfig::default(),
        store: StoreConfig::default(),
        cache: CacheConfig::default(),
        psl: PslConfig::default(),
        templates: named(&t, "templates", template),
        resolvers: named(&t, "resolvers", resolver),
        regexes: named(&t, "regexes", regex),
        listeners: rows(&t, "listener").iter().map(listener).collect(),
    }
}

const CA: &str = "[ca]\ncert_path = \"ca.crt\"\nkey_path = \"ca.key\"\n";

fn parse(cfg: &str) -> Config {
    read(&format!("{CA}{cfg}"))
}

// ---------------------------------------------------------------------------
// Addresses
// ---------------------------------------------------------------------------

#[test]
fn split_host_port_variants() {
    assert_eq!(split_host_port("a.com:443"), Some(("a.com".into(), 443)));
    assert_eq!(split_host_port("1.2.3.4:443"), Some(("1.2.3.4".into(), 443)));
    assert_eq!(split_host_port("[2a01:4f8::1]:443"), Some(("2a01:4f8::1".into(), 443)));
    assert_eq!(
        split_host_port("[2a01:4f8:c2c:123f:64:5:6812:202f]:443"),
        Some(("2a01:4f8:c2c:123f:64:5:6812:202f".into(), 443))
    );
    assert_eq!(split_host_port("2a01:4f8:c2c:123f:64:5:6812:202f:443"), None);
    assert_eq!(split_host_port("2a01:4f8::1:443"), None);
    assert_eq!(split_host_port("no-port"), None);
    assert_eq!(split_host_port("a.com:bad"), None);
    assert_eq!(split_host_port("[not-v6]:443"), None);
}

#[test]
fn parse_upstream_variants() {
    let spec = |host: Option<&str>, port: Option<u16>| Some(UpstreamSpec { host: host.map(str::to_string), port });
    assert_eq!(parse_upstream("8443"), spec(None, Some(8443)));
    assert_eq!(parse_upstream("443"), spec(None, Some(443)));
    assert_eq!(parse_upstream("cdn.example.com"), spec(Some("cdn.example.com"), None));
    assert_eq!(parse_upstream("a.com:443"), spec(Some("a.com"), Some(443)));
    assert_eq!(parse_upstream("1.2.3.4:8443"), spec(Some("1.2.3.4"), Some(8443)));
    assert_eq!(parse_upstream("[2a01:4f8::1]:443"), spec(Some("2a01:4f8::1"), Some(443)));
    assert_eq!(parse_upstream("  9000  "), spec(None, Some(9000)));
    assert_eq!(parse_upstream(""), None);
    assert_eq!(parse_upstream("   "), None);
    assert_eq!(parse_upstream("2a01:4f8::1:443"), None);
    assert_eq!(parse_upstream("a.com:bad"), None);
    assert_eq!(parse_upstream("99999"), None);
    assert_eq!(parse_upstream("[not-v6]:443"), None);
}

#[test]
fn resolved_upstream_defaults() {
    assert_eq!(resolved_upstream_from(None, 8443), Some((None, 8443)));
    assert_eq!(resolved_upstream_from(Some("9001"), 443), Some((None, 9001)));
    assert_eq!(resolved_upstream_from(Some("cdn.x"), 443), Some((Some("cdn.x".into()), 443)));
    assert_eq!(resolved_upstream_from(Some("cdn.x:8080"), 443), Some((Some("cdn.x".into()), 8080)));
    assert_eq!(resolved_upstream_from(Some("a.com:bad"), 443), None);
}

#[test]
fn listen_addr_bare_port_string() {
    let unspec = IpAddr::V4(0);
    assert_eq!(parse_listen_addr("443").unwrap(), SocketAddr::new(unspec, 443));
    assert_eq!(parse_listen_addr("8443").unwrap(), SocketAddr::new(unspec, 8443));
    assert_eq!(parse_listen_addr("0").unwrap(), SocketAddr::new(unspec, 0));
    assert_eq!(parse_listen_addr("  443  ").unwrap(), SocketAddr::new(unspec, 443));
}

#[test]
fn listen_addr_full_forms_pass_through() {
    assert_eq!(parse_listen_addr("127.0.0.1:443").unwrap(), SocketAddr::new(IpAddr::V4(0x7f000001), 443));
    assert_eq!(parse_listen_addr("[::1]:443").unwrap(), SocketAddr::new(IpAddr::V6(1), 443));
    assert_eq!(parse_listen_addr("[::]:8443").unwrap(), SocketAddr::new(IpAddr::V6(0), 8443));
    assert_eq!(parse_listen_addr("0.0.0.0:443").unwrap(), SocketAddr::new(IpAddr::V4(0), 443));
}

#[test]
fn listen_addr_port_out_of_range() {
    assert!(parse_listen_addr("65536").is_err());
    assert!(parse_listen_addr("99999").is_err());
}

#[test]
fn listen_addr_rejected_forms() {
    assert!(parse_listen_addr("localhost:443").is_err());
    assert!(parse_listen_addr(":443").is_err());
    assert!(parse_listen_addr("::1:443").is_err());
    assert!(parse_listen_addr("::1").is_err());
    assert!(parse_listen_addr("").is_err());
    assert!(parse_listen_addr("not-an-addr").is_err());
}

#[test]
fn listen_addr_shorthand_deduplication() {
    let shorthand = parse_listen_addr("443").unwrap();
    let explicit = SocketAddr::new(IpAddr::V4(0), 443);
    assert_eq!(shorthand, explicit, "shorthand must equal the explicit form");

    let cfg = parse(
        r#"
[[listener]]
addr = "443"
  [[listener.route]]
  name = "a"
  type = "raw"
  match_sni = [".a.com"]

[[listener]]
addr = "0.0.0.0:443"
  [[listener.route]]
  name = "b"
  type = "raw"
  match_sni = [".b.com"]
"#,
    );
    assert!(cfg.validate().is_err(), "duplicate listeners must be rejected");
}

#[test]
fn a_port_number_reads_like_its_text() {
    for n in [0i64, 7, 443, 65535] {
        assert_eq!(listen_addr_from_number(n).unwrap(), parse_listen_addr(&n.to_string()).unwrap());
        assert_eq!(upstream_from_number(n).unwrap(), n.to_string());
    }
    for n in [-1i64, 65536, i64::MAX, i64::MIN] {
        let refused = upstream_from_number(n).unwrap_err();
        assert!(refused.contains(&n.to_string()), "{refused}");
        assert!(listen_addr_from_number(n).is_err());
    }
}

// ---------------------------------------------------------------------------
// Inheritance
// ---------------------------------------------------------------------------

const HIER: &str = r#"
[global]
resolver = "https://global.example/dns-query"
nat64_prefix = "64:ff9b::"
connect_timeout = "9s"

[ca]
cert_path = "ca.crt"
key_path = "ca.key"

[[listener]]
addr = "0.0.0.0:443"
addr_resolver = "tls://1.1.1.1:853"
connect_timeout = "3s"

  [[listener.route]]
  name = "inherits"
  type = "tls"
  match_sni = [".inherit.com"]
  upstream = "u1:443"

  [[listener.route]]
  name = "overrides"
  type = "tls"
  match_sni = [".override.com"]
  upstream = "u2:443"
  nat64_prefix = "2a01:4f8:c2c:123f:64:5"
  connect_timeout = "1s"
  addr_resolver = "9.9.9.9"
"#;

#[test]
fn hierarchical_fallback() {
    let cfg = read(HIER);
    cfg.validate().unwrap();
    let listener = &cfg.listeners[0];

    let e0 = cfg.effective(listener, &listener.routes[0], None, None);
    assert_eq!(e0.addr_resolver.as_deref(), Some("tls://1.1.1.1:853"));
    assert_eq!(e0.nat64_prefix.as_deref(), Some("64:ff9b::"));
    assert_eq!(e0.connect_timeout, Duration::from_secs(3));

    let e1 = cfg.effective(listener, &listener.routes[1], None, None);
    assert_eq!(e1.addr_resolver.as_deref(), Some("9.9.9.9"));
    assert_eq!(e1.nat64_prefix.as_deref(), Some("2a01:4f8:c2c:123f:64:5"));
    assert_eq!(e1.connect_timeout, Duration::from_secs(1));
}

fn route_ech(cfg: &Config, idx: usize) -> EffectiveEch {
    let l = &cfg.listeners[0];
    let r = &l.routes[idx];
    let rt = cfg.template_for(&r.use_template).unwrap();
    let lt = cfg.template_for(&l.use_template).unwrap();
    cfg.effective_ech(l, r, rt, lt)
}

#[test]
fn ech_inherits_field_by_field() {
    let cfg = parse(
        r#"
[global.ech]
mode = "static"
config = "GLOBALCFG"
ech_domain = "global-ech.example"

[[listener]]
addr = "0.0.0.0:443"

  [listener.ech]
  ech_domain = "listener-ech.example"

  [[listener.route]]
  name = "a"
  type = "ech"
  match_sni = [".a.com"]
    [listener.route.ech]
    max_retries = 5

  [[listener.route]]
  name = "b"
  type = "ech"
  match_sni = [".b.com"]
"#,
    );
    cfg.validate().unwrap();

    let a = route_ech(&cfg, 0);
    assert_eq!(a.mode, EchMode::Static);
    assert_eq!(a.config.as_deref(), Some("GLOBALCFG"));
    assert_eq!(a.ech_domain.as_deref(), Some("listener-ech.example"));
    assert_eq!(a.max_retries, 5);

    let b = route_ech(&cfg, 1);
    assert_eq!(b.mode, EchMode::Static);
    assert_eq!(b.config.as_deref(), Some("GLOBALCFG"));
    assert_eq!(b.ech_domain.as_deref(), Some("listener-ech.example"));
    assert_eq!(b.max_retries, 2);
}

#[test]
fn ech_mode_unset_is_distinct_from_doh() {
    let cfg = parse(
        r#"
[global.ech]
mode = "static"
config = "GLOBALCFG"

[[listener]]
addr = "0.0.0.0:443"
  [[listener.route]]
  name = "a"
  type = "ech"
  match_sni = [".a.com"]
    [listener.route.ech]
    require_ech = false
"#,
    );
    cfg.validate().unwrap();
    let a = route_ech(&cfg, 0);
    assert_eq!(a.mode, EchMode::Static);
    assert_eq!(a.config.as_deref(), Some("GLOBALCFG"));
}

#[test]
fn template_supplies_type_upstream_and_ech() {
    let cfg = parse(
        r#"
[templates.edge]
type = "ech"
upstream = "cdn.example:443"
  [templates.edge.ech]
  mode = "static"
  config = "EDGECFG"

[[listener]]
addr = "0.0.0.0:443"
  [[listener.route]]
  name = "a"
  use = "edge"
  match_sni = [".a.com"]
"#,
    );
    cfg.validate().unwrap();
    let l = &cfg.listeners[0];
    let r = &l.routes[0];
    let rt = cfg.template_for(&r.use_template).unwrap();
    assert_eq!(Config::effective_route_type(r, rt), Some(RouteType::Ech));
    assert_eq!(resolved_upstream_from(r.upstream_spec(rt), 443), Some((Some("cdn.example".into()), 443)));
    let e = cfg.effective_ech(l, r, rt, None);
    assert_eq!(e.mode, EchMode::Static);
    assert_eq!(e.config.as_deref(), Some("EDGECFG"));
}

#[test]
fn template_precedence_walks_all_tiers() {
    let base = |route_ct: Option<&str>| {
        let route_line = route_ct.map(|v| format!("  connect_timeout = \"{v}\"\n")).unwrap_or_default();
        format!(
            r#"
[global]
connect_timeout = "5s"

[templates.rtpl]
connect_timeout = "2s"

[templates.ltpl]
connect_timeout = "4s"

[[listener]]
addr = "0.0.0.0:443"
use = "ltpl"
connect_timeout = "3s"
  [[listener.route]]
  name = "a"
  type = "raw"
  use = "rtpl"
  match_sni = [".a.com"]
  upstream = "127.0.0.1:9"
{route_line}"#
        )
    };
    let eff = |cfg: &Config| {
        let l = &cfg.listeners[0];
        let r = &l.routes[0];
        let rt = cfg.template_for(&r.use_template).unwrap();
        let lt = cfg.template_for(&l.use_template).unwrap();
        cfg.effective(l, r, rt, lt).connect_timeout
    };

    assert_eq!(eff(&parse(&base(Some("1s")))), Duration::from_secs(1));
    assert_eq!(eff(&parse(&base(None))), Duration::from_secs(2));
}

#[test]
fn template_precedence_listener_then_global() {
    let cfg = parse(
        r#"
[global]
connect_timeout = "5s"

[templates.ltpl]
connect_timeout = "4s"

[[listener]]
addr = "0.0.0.0:443"
use = "ltpl"
connect_timeout = "3s"
  [[listener.route]]
  name = "a"
  type = "raw"
  match_sni = [".a.com"]
  upstream = "127.0.0.1:9"
"#,
    );
    let l = &cfg.listeners[0];
    let r = &l.routes[0];
    let lt = cfg.template_for(&l.use_template).unwrap();
    assert_eq!(cfg.effective(l, r, None, lt).connect_timeout, Duration::from_secs(3));
    let cfg2 = parse(
        r#"
[global]
connect_timeout = "5s"
[templates.ltpl]
connect_timeout = "4s"
[[listener]]
addr = "0.0.0.0:443"
use = "ltpl"
  [[listener.route]]
  name = "a"
  type = "raw"
  match_sni = [".a.com"]
  upstream = "127.0.0.1:9"
"#,
    );
    let l2 = &cfg2.listeners[0];
    let lt2 = cfg2.template_for(&l2.use_template).unwrap();
    assert_eq!(cfg2.effective(l2, &l2.routes[0], None, lt2).connect_timeout, Duration::from_secs(4));
    assert_eq!(cfg2.effective(l2, &l2.routes[0], None, None).connect_timeout, Duration::from_secs(5));
}

#[test]
fn listener_template_upstream_does_not_reach_route() {
    let cfg = parse(
        r#"
[templates.ltpl]
upstream = "wrong.example:1"

[[listener]]
addr = "0.0.0.0:8443"
use = "ltpl"
  [[listener.route]]
  name = "a"
  type = "raw"
  match_sni = [".a.com"]
"#,
    );
    cfg.validate().unwrap();
    let r = &cfg.listeners[0].routes[0];
    let rt = cfg.template_for(&r.use_template).unwrap();
    assert_eq!(resolved_upstream_from(r.upstream_spec(rt), 8443), Some((None, 8443)));
}

#[test]
fn unknown_template_name_is_an_error() {
    let cfg = parse(
        r#"
[[listener]]
addr = "0.0.0.0:443"
  [[listener.route]]
  name = "a"
  type = "raw"
  use = "nope"
  match_sni = [".a.com"]
  upstream = "127.0.0.1:9"
"#,
    );
    assert!(cfg.validate().is_err());
}

#[test]
fn missing_type_is_an_error() {
    let cfg = parse(
        r#"
[[listener]]
addr = "0.0.0.0:443"
  [[listener.route]]
  name = "a"
  match_sni = [".a.com"]
  upstream = "127.0.0.1:9"
"#,
    );
    assert!(cfg.validate().is_err());
}

#[test]
fn type_from_template_is_accepted() {
    let cfg = parse(
        r#"
[templates.web]
type = "http"
upstream = "127.0.0.1:8080"

[[listener]]
addr = "0.0.0.0:443"
  [[listener.route]]
  name = "a"
  use = "web"
  match_sni = [".a.com"]
"#,
    );
    cfg.validate().unwrap();
    let r = &cfg.listeners[0].routes[0];
    let rt = cfg.template_for(&r.use_template).unwrap();
    assert_eq!(Config::effective_route_type(r, rt), Some(RouteType::Http));
}

#[test]
fn ech_static_without_config_is_an_error() {
    let cfg = parse(
        r#"
[[listener]]
addr = "0.0.0.0:443"
  [[listener.route]]
  name = "a"
  type = "ech"
  match_sni = [".a.com"]
    [listener.route.ech]
    mode = "static"
"#,
    );
    assert!(cfg.validate().is_err());
}

#[test]
fn issuance_mode_resolution() {
    for want in [IssuanceMode::Exact, IssuanceMode::Wildcard, IssuanceMode::Ladder] {
        let c = IssuanceConfig { mode: want };
        assert_eq!(c.resolved_mode(), want);
    }
    let c = IssuanceConfig::default();
    assert_eq!(c.resolved_mode(), IssuanceMode::Wildcard);
}

#[test]
fn sni_policy_resolution() {
    assert_eq!(SniPolicy::resolve(None), SniPolicy::Reflect);
    assert_eq!(SniPolicy::resolve(Some("inner.example")), SniPolicy::Fixed("inner.example".into()));
    assert_eq!(SniPolicy::resolve(Some("  inner.example  ")), SniPolicy::Fixed("inner.example".into()));
    assert_eq!(SniPolicy::resolve(Some("")), SniPolicy::Omit);
    assert_eq!(SniPolicy::resolve(Some("   ")), SniPolicy::Omit);
}

#[test]
fn empty_override_sni_is_accepted_and_means_omit() {
    let cfg = parse(
        r#"
[[listener]]
addr = "0.0.0.0:443"
  [[listener.route]]
  name = "no-sni"
  type = "tls"
  match_sni = [".a.com"]
  override_sni = ""
"#,
    );
    cfg.validate().unwrap();
    let r = &cfg.listeners[0].routes[0];
    assert_eq!(r.sni_policy(None), SniPolicy::Omit);
}

#[test]
fn route_can_blank_out_a_templates_override_sni() {
    let cfg = parse(
        r#"
[templates.edge]
type = "tls"
override_sni = "from-template.example"

[[listener]]
addr = "0.0.0.0:443"
  [[listener.route]]
  name = "inherits"
  use = "edge"
  match_sni = [".a.com"]

  [[listener.route]]
  name = "blanks-it"
  use = "edge"
  match_sni = [".b.com"]
  override_sni = ""
"#,
    );
    cfg.validate().unwrap();
    let l = &cfg.listeners[0];
    let tpl = cfg.template_for(&l.routes[0].use_template).unwrap();
    assert_eq!(l.routes[0].sni_policy(tpl), SniPolicy::Fixed("from-template.example".into()));
    let tpl2 = cfg.template_for(&l.routes[1].use_template).unwrap();
    assert_eq!(l.routes[1].sni_policy(tpl2), SniPolicy::Omit);
}

fn route_http2(cfg: &Config, idx: usize) -> EffectiveHttp2 {
    let l = &cfg.listeners[0];
    let r = &l.routes[idx];
    let rt = cfg.template_for(&r.use_template).unwrap();
    let lt = cfg.template_for(&l.use_template).unwrap();
    cfg.effective_http2(l, r, rt, lt)
}

#[test]
fn http2_inherits_field_by_field() {
    let cfg = parse(
        r#"
[global.http2]
enabled = true
probe = "require"
probe_timeout = "9s"

[[listener]]
addr = "0.0.0.0:443"

  [listener.http2]
  probe = "off"

  [[listener.route]]
  name = "a"
  type = "http"
  match_sni = [".a.com"]
    [listener.route.http2]
    probe_timeout = "1s"

  [[listener.route]]
  name = "b"
  type = "http"
  match_sni = [".b.com"]
"#,
    );
    cfg.validate().unwrap();

    let a = route_http2(&cfg, 0);
    assert!(a.enabled);
    assert_eq!(a.probe, H2Probe::Off);
    assert_eq!(a.probe_timeout, Duration::from_secs(1));

    let b = route_http2(&cfg, 1);
    assert!(b.enabled);
    assert_eq!(b.probe, H2Probe::Off);
    assert_eq!(b.probe_timeout, Duration::from_secs(9));
}

#[test]
fn http2_defaults_when_unconfigured() {
    let cfg = parse(
        r#"
[[listener]]
addr = "0.0.0.0:443"
  [[listener.route]]
  name = "a"
  type = "http"
  match_sni = [".a.com"]
"#,
    );
    cfg.validate().unwrap();
    let a = route_http2(&cfg, 0);
    assert!(!a.enabled, "http2 must be opt-in");
    assert_eq!(a.probe, H2Probe::Warn, "probe defaults to warn");
    assert_eq!(a.probe_timeout, Duration::from_secs(3));
}

#[test]
fn http2_explicitly_enabled_on_raw_route_is_an_error() {
    let cfg = parse(
        r#"
[[listener]]
addr = "0.0.0.0:443"
  [[listener.route]]
  name = "a"
  type = "raw"
  match_sni = [".a.com"]
    [listener.route.http2]
    enabled = true
"#,
    );
    assert!(cfg.validate().is_err());
}

#[test]
fn http2_enabled_on_a_raw_routes_template_is_an_error() {
    let cfg = parse(
        r#"
[templates.rawtpl]
type = "raw"
  [templates.rawtpl.http2]
  enabled = true

[[listener]]
addr = "0.0.0.0:443"
  [[listener.route]]
  name = "a"
  use = "rawtpl"
  match_sni = [".a.com"]
"#,
    );
    assert!(cfg.validate().is_err());
}

#[test]
fn http2_inherited_by_a_raw_route_is_ignored_not_an_error() {
    let cfg = parse(
        r#"
[global.http2]
enabled = true

[[listener]]
addr = "0.0.0.0:443"
  [[listener.route]]
  name = "raw"
  type = "raw"
  match_sni = [".raw.com"]

  [[listener.route]]
  name = "web"
  type = "http"
  match_sni = [".web.com"]
"#,
    );
    cfg.validate().unwrap();
    assert!(!route_http2(&cfg, 0).enabled, "raw ignores inherited http2");
    assert!(route_http2(&cfg, 1).enabled, "http route still gets it");
}

#[test]
fn upstream_integer_equals_string() {
    let with_int = parse(
        r#"
[[listener]]
addr = "0.0.0.0:443"
  [[listener.route]]
  name = "a"
  type = "raw"
  match_sni = [".a.com"]
  upstream = 8443
"#,
    );
    let with_str = parse(
        r#"
[[listener]]
addr = "0.0.0.0:443"
  [[listener.route]]
  name = "a"
  type = "raw"
  match_sni = [".a.com"]
  upstream = "8443"
"#,
    );
    with_int.validate().unwrap();
    with_str.validate().unwrap();
    assert_eq!(with_int.listeners[0].routes[0].upstream, with_str.listeners[0].routes[0].upstream);
}

#[test]
fn upstream_integer_in_template() {
    let cfg = parse(
        r#"
[templates.web]
type = "http"
upstream = 8080

[[listener]]
addr = "0.0.0.0:443"
  [[listener.route]]
  name = "a"
  use = "web"
  match_sni = [".a.com"]
"#,
    );
    cfg.validate().unwrap();
    let web = cfg.template_for(&Some("web".to_string())).unwrap().unwrap();
    assert_eq!(web.upstream.as_deref(), Some("8080"));
}

#[test]
fn upstream_integer_out_of_range_is_rejected() {
    assert!(upstream_from_number(99999).is_err(), "port 99999 must be rejected");
}

#[test]
fn ech_doh_without_config_is_ok() {
    let cfg = parse(
        r#"
[[listener]]
addr = "0.0.0.0:443"
  [[listener.route]]
  name = "a"
  type = "ech"
  match_sni = [".a.com"]
    [listener.route.ech]
    ech_domain = "cloudflare-ech.com"
"#,
    );
    cfg.validate().unwrap();
    assert_eq!(route_ech(&cfg, 0).mode, EchMode::Doh);
}

// ---------------------------------------------------------------------------
// Named regexes
// ---------------------------------------------------------------------------

#[test]
fn regex_with_valid_scope_suffix() {
    let cfg = parse(
        r#"
[regexes.cdn]
pattern = "^cdn-[0-9]+\\.example\\.com$"
scope_suffix = ["*.example.com"]

[[listener]]
addr = "0.0.0.0:443"
  [[listener.route]]
  type = "tls"
  match_sni = ["@cdn"]
"#,
    );
    assert!(cfg.validate().is_ok());
}

#[test]
fn regex_with_multiple_scope_suffixes() {
    let cfg = parse(
        r#"
[regexes.multi]
pattern = "^test.*$"
scope_suffix = ["*.example.com", ".other.com", "apex.com"]

[[listener]]
addr = "0.0.0.0:443"
  [[listener.route]]
  type = "tls"
  match_sni = ["@multi"]
"#,
    );
    assert!(cfg.validate().is_ok());
}

#[test]
fn regex_with_empty_scope_suffix_is_rejected() {
    let cfg = parse(
        r#"
[regexes.bad]
pattern = "^test\\.com$"
scope_suffix = []

[[listener]]
addr = "0.0.0.0:443"
  [[listener.route]]
  type = "tls"
  match_sni = ["@bad"]
"#,
    );
    let err = cfg.validate().unwrap_err().message();
    assert!(err.contains("scope_suffix must not be empty"), "{err}");
}

#[test]
fn regex_with_invalid_pattern_is_rejected() {
    let cfg = parse(
        r#"
[regexes.bad]
pattern = "^[invalid"
scope_suffix = ["*.example.com"]

[[listener]]
addr = "0.0.0.0:443"
  [[listener.route]]
  type = "tls"
  match_sni = ["@bad"]
"#,
    );
    let err = cfg.validate().unwrap_err().message();
    assert!(err.contains("invalid pattern"), "{err}");
    // The complaint is the one that the regex engine itself makes.
    let own = regex::Regex::new("^[invalid").unwrap_err().to_string();
    assert!(err.contains(&own), "{err}");
}

#[test]
fn regex_with_bare_tld_scope_is_rejected() {
    let cfg = parse(
        r#"
[regexes.bad]
pattern = "^.*\\.com$"
scope_suffix = ["*.com"]

[[listener]]
addr = "0.0.0.0:443"
  [[listener.route]]
  type = "tls"
  match_sni = ["@bad"]
"#,
    );
    let err = cfg.validate().unwrap_err().message();
    assert!(err.contains("multi-level domain"), "{err}");
    assert!(err.contains("bare TLDs"), "{err}");
}

#[test]
fn regex_with_empty_scope_entry_is_rejected() {
    let cfg = parse(
        r#"
[regexes.bad]
pattern = "^test\\.example\\.com$"
scope_suffix = ["*.example.com", ""]

[[listener]]
addr = "0.0.0.0:443"
  [[listener.route]]
  type = "tls"
  match_sni = ["@bad"]
"#,
    );
    let err = cfg.validate().unwrap_err().message();
    assert!(err.contains("empty entry"), "{err}");
}

#[test]
fn regex_with_invalid_label_is_rejected() {
    let cfg = parse(
        r#"
[regexes.bad]
pattern = "^test$"
scope_suffix = ["*.-invalid.com"]

[[listener]]
addr = "0.0.0.0:443"
  [[listener.route]]
  type = "tls"
  match_sni = ["@bad"]
"#,
    );
    let err = cfg.validate().unwrap_err().message();
    assert!(err.contains("hyphens cannot be at the start"), "{err}");
}

#[test]
fn inline_regex_is_rejected() {
    let cfg = parse(
        r#"
[[listener]]
addr = "0.0.0.0:443"
  [[listener.route]]
  type = "tls"
  match_sni = ["~^test\\.com$"]
"#,
    );
    let err = cfg.validate().unwrap_err().message();
    assert!(err.contains("inline regex"), "{err}");
    assert!(err.contains("no longer supported"), "{err}");
}

#[test]
fn regex_reference_to_nonexistent_regex_is_rejected() {
    let cfg = parse(
        r#"
[[listener]]
addr = "0.0.0.0:443"
  [[listener.route]]
  type = "tls"
  match_sni = ["@nonexistent"]
"#,
    );
    let err = cfg.validate().unwrap_err().message();
    assert!(err.contains("unknown regex"), "{err}");
    assert!(err.contains("nonexistent"), "{err}");
}

#[test]
fn is_regex_ref_identifies_at_prefix() {
    assert!(Config::is_regex_ref("@cdn-pattern"));
    assert!(Config::is_regex_ref("  @name  "));
    assert!(!Config::is_regex_ref("example.com"));
    assert!(!Config::is_regex_ref("*.example.com"));
    assert!(!Config::is_regex_ref(".example.com"));
    assert!(!Config::is_regex_ref(""));
}

#[test]
fn resolve_regex_ref_extracts_name() {
    let cfg = parse(
        r#"
[regexes.test-cdn]
pattern = "^test$"
scope_suffix = ["*.example.com"]

[[listener]]
addr = "0.0.0.0:443"
  [[listener.route]]
  type = "tls"
  match_sni = [".example.com"]
"#,
    );
    cfg.validate().unwrap();

    let def = cfg.resolve_regex_ref("@test-cdn").unwrap();
    assert_eq!(def.pattern, "^test$");
    assert_eq!(def.scope_suffix, vec!["*.example.com"]);

    assert!(cfg.resolve_regex_ref("@nonexistent").is_err());
    assert!(cfg.resolve_regex_ref("not-a-ref").is_err());
    assert!(cfg.resolve_regex_ref("@").is_err());
}

#[test]
fn scopes_are_checked_label_by_label() {
    assert!(validate_scope_pattern("r", "*.a.example.com").is_ok());
    assert!(validate_scope_pattern("r", "com").is_err());
    assert!(validate_scope_pattern("r", "*.a_b.com").is_err());
    assert!(validate_regex("r", &None, &vec!["*.example.com".to_string()]).is_ok());
    assert!(validate_regex("r", &Some("unclosed".to_string()), &vec!["*.example.com".to_string()]).is_err());
}

// ---------------------------------------------------------------------------
// Named resolvers
// ---------------------------------------------------------------------------

const RESOLVERS: &str = r#"
[resolvers.edge]
endpoint = "https://dns.blocked.test/dns-query"
bootstrap = "@plain"
  [resolvers.edge.ech]
  ech_resolver = "@helper"

[resolvers.helper]
endpoint = "tls://1.1.1.1"
bootstrap = "@plain"

[resolvers.plain]
endpoint = "9.9.9.9"

[[listener]]
addr = "0.0.0.0:443"
resolver = "@edge"
  [[listener.route]]
  type = "tls"
  match_sni = [".a.com"]
"#;

#[test]
fn resolvers_are_built_after_what_they_need() {
    let cfg = parse(RESOLVERS);
    cfg.validate().unwrap();
    let order = cfg.resolver_build_order().unwrap();
    assert_eq!(order, vec!["plain", "helper", "edge"]);
    let refs = cfg.resolver_refs();
    assert!(refs.iter().any(|(_, spec)| spec == "@edge"), "{refs:?}");
}

#[test]
fn the_build_order_ignores_the_declaration_order() {
    let cfg = parse(RESOLVERS);
    let mut turned = cfg.clone();
    turned.resolvers.reverse();
    assert_eq!(cfg.resolver_build_order().unwrap(), turned.resolver_build_order().unwrap());
}

#[test]
fn a_cycle_of_resolvers_is_named() {
    let cfg = parse(
        r#"
[resolvers.a]
endpoint = "https://a.test"
bootstrap = "@b"

[resolvers.b]
endpoint = "https://b.test"
bootstrap = "@a"

[[listener]]
addr = "0.0.0.0:443"
  [[listener.route]]
  type = "tls"
  match_sni = [".a.com"]
"#,
    );
    let err = cfg.resolver_build_order().unwrap_err().message();
    assert!(err.contains('a') && err.contains('b') && err.contains("->"), "{err}");
    assert!(cfg.validate().is_err());
}

#[test]
fn an_endpoint_that_cannot_be_read_is_refused() {
    for endpoint in ["not-an-ip", "tls://", "https:///dns-query"] {
        let cfg = parse(&format!(
            r#"
[resolvers.plain]
endpoint = "{endpoint}"

[[listener]]
addr = "0.0.0.0:443"
  [[listener.route]]
  type = "tls"
  match_sni = [".a.com"]
"#
        ));
        let err = cfg.validate().unwrap_err().message();
        assert!(err.starts_with("[resolvers.plain] endpoint: "), "{err}");
    }
}

#[test]
fn an_unknown_resolver_is_refused_where_it_is_used() {
    let cfg = parse(
        r#"
[[listener]]
addr = "0.0.0.0:443"
resolver = "@nope"
  [[listener.route]]
  type = "tls"
  match_sni = [".a.com"]
"#,
    );
    let err = cfg.validate().unwrap_err().message();
    assert!(err.contains("unknown resolver") && err.contains("nope"), "{err}");
    assert!(cfg.effective_resolver("nope").is_err());
    assert!(cfg.resolve_resolver_ref("plain").is_err());
}

#[test]
fn a_resolver_takes_global_settings_but_not_its_helpers() {
    let cfg = parse(
        r#"
[global]
connect_timeout = "7s"
resolver = "@plain"

[resolvers.plain]
endpoint = "9.9.9.9"

[[listener]]
addr = "0.0.0.0:443"
  [[listener.route]]
  type = "tls"
  match_sni = [".a.com"]
"#,
    );
    cfg.validate().unwrap();
    let eff = cfg.effective_resolver("plain").unwrap();
    assert_eq!(eff.connect_timeout, Duration::from_secs(7));
    assert_eq!(eff.bootstrap, None);
    assert_eq!(eff.ech_resolver, None);
    assert!(eff.ech.is_none());
}

fn fail_policy(doc: &str) -> Result<FailPolicy, String> {
    let t: Table = doc.parse().unwrap();
    match &t["p"] {
        Value::String(mode) => FailPolicy::from_mode(mode, None),
        Value::Table(t) => {
            let addr = text(t, "addr").map(|s| parse_listen_addr(&s).unwrap());
            FailPolicy::from_mode(&text(t, "mode").unwrap(), addr)
        }
        other => panic!("no policy: {other:?}"),
    }
}

#[test]
fn fail_policy_string_and_table_forms() {
    assert_eq!(fail_policy(r#"p = "close""#).unwrap(), FailPolicy::Close);
    assert_eq!(fail_policy(r#"p = "system-outbound""#).unwrap(), FailPolicy::SystemOutbound);
    assert_eq!(
        fail_policy(r#"p = { mode = "passthrough", addr = "127.0.0.1:80" }"#).unwrap(),
        FailPolicy::Passthrough { addr: SocketAddr::new(IpAddr::V4(0x7f000001), 80) }
    );
    assert_eq!(fail_policy(r#"p = { mode = "close" }"#).unwrap(), FailPolicy::Close);
    assert!(fail_policy(r#"p = { mode = "passthrough" }"#).is_err());
    assert_eq!(
        fail_policy(r#"p = "bogus""#).unwrap_err(),
        "unknown fail mode \"bogus\" (expected close | system-outbound | passthrough)"
    );
}
