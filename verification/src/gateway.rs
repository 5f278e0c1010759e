//! From the configuration to what a listener runs with.

pub mod overlap;
pub mod probes;

use crate::certscope;
use crate::certscope::{CertScope, EchIdentity, Forwarding, ForwardingView};
use crate::config;
use crate::config::ladder;
use crate::config::ladder::Place;
use crate::config::references;
use crate::config::upstream;
use crate::config::upstream::resolved_upstream_from;
use crate::config::{
    AddressFamily, Config, Effective, EffectiveEch, EffectiveHttp2, H2Probe, Listener, Route, RouteType, SniPolicy,
    SniView, Template,
};
use crate::proxy::RouteRuntime;
use crate::text;
use crate::text::{concat3, push_text};
use crate::time::Duration;
use vstd::prelude::*;

verus! {

// ---------------------------------------------------------------------------
// Route types
// ---------------------------------------------------------------------------

/// What a listener accepts.
#[derive(Debug, Clone, Copy, PartialEq, Eq, Structural)]
pub enum ListenerTransport {
    Tcp,
    Quic,
}

/// What a configured route type means on a transport. On QUIC a route that
/// terminates TLS terminates HTTP/3.
pub open spec fn runtime_type(transport: ListenerTransport, t: RouteType) -> Option<RouteType> {
    match (transport, t) {
        (_, RouteType::Raw) => Some(RouteType::Raw),
        (ListenerTransport::Tcp, RouteType::Tls) => Some(RouteType::Tls),
        (ListenerTransport::Tcp, RouteType::Ech) => Some(RouteType::Ech),
        (ListenerTransport::Tcp, RouteType::Http) => Some(RouteType::Http),
        (ListenerTransport::Quic, RouteType::Tls) => Some(RouteType::H3),
        (ListenerTransport::Quic, RouteType::Ech) => Some(RouteType::H3Ech),
        _ => None,
    }
}

/// What a configured route type means on a transport.
pub fn runtime_route_type(transport: ListenerTransport, configured: RouteType) -> (r: Option<RouteType>)
    ensures
        r == runtime_type(transport, configured),
{
    match (transport, configured) {
        (_, RouteType::Raw) => Some(RouteType::Raw),
        (ListenerTransport::Tcp, RouteType::Tls) => Some(RouteType::Tls),
        (ListenerTransport::Tcp, RouteType::Ech) => Some(RouteType::Ech),
        (ListenerTransport::Tcp, RouteType::Http) => Some(RouteType::Http),
        (ListenerTransport::Quic, RouteType::Tls) => Some(RouteType::H3),
        (ListenerTransport::Quic, RouteType::Ech) => Some(RouteType::H3Ech),
        _ => None,
    }
}

/// The name of a route type in messages.
pub open spec fn type_word(t: RouteType) -> Seq<char> {
    match t {
        RouteType::Ech => "Ech"@,
        RouteType::Tls => "Tls"@,
        RouteType::Http => "Http"@,
        RouteType::Raw => "Raw"@,
        RouteType::H3 => "H3"@,
        RouteType::H3Ech => "H3Ech"@,
    }
}

fn name_of_type(t: RouteType) -> (r: &'static str)
    ensures
        r@ == type_word(t),
{
    match t {
        RouteType::Ech => "Ech",
        RouteType::Tls => "Tls",
        RouteType::Http => "Http",
        RouteType::Raw => "Raw",
        RouteType::H3 => "H3",
        RouteType::H3Ech => "H3Ech",
    }
}

// ---------------------------------------------------------------------------
// Routes
// ---------------------------------------------------------------------------

/// What a route's ECH is set up with.
#[derive(Debug, Clone)]
pub struct EchSetup {
    pub settings: EffectiveEch,
    /// The resolver that looks up the configuration, of both address families.
    pub resolver: String,
    /// Whether the inner hello names the server.
    pub enable_sni: bool,
    pub refresh: Duration,
}

/// A backend whose HTTP/2 is tried before the listeners start.
#[derive(Debug, Clone)]
pub struct ProbeTarget {
    pub route: String,
    pub host: String,
    pub port: u16,
    pub policy: H2Probe,
    pub budget: Duration,
}

/// What a route runs with.
#[derive(Debug, Clone)]
pub struct RouteSetup {
    pub runtime: RouteRuntime,
    /// What decides which names may share a certificate of the route.
    pub forwarding: Forwarding,
    /// The resolver of upstream addresses; empty for the system's.
    pub addr_resolver: String,
    pub ech: Option<EchSetup>,
    pub probe: Option<ProbeTarget>,
}

/// A message about a route.
pub open spec fn about(route: Route, rest: Seq<char>) -> Seq<char> {
    "route "@ + references::label_of(route) + rest
}

/// The templates of a route and of its listener.
pub open spec fn templates_for(cfg: Config, listener: Listener, route: Route) -> Result<
    (Option<Template>, Option<Template>),
    Seq<char>,
> {
    match (
        references::template_of(cfg.templates@, text::opt_text(route.use_template)),
        references::template_of(cfg.templates@, text::opt_text(listener.use_template)),
    ) {
        (Ok(rt), Ok(lt)) => Ok((rt, lt)),
        (Err(e), _) => Err(e),
        (_, Err(e)) => Err(e),
    }
}

/// Why a route cannot be set up, if so.
pub open spec fn refusal(cfg: Config, listener: Listener, transport: ListenerTransport, route: Route) -> Option<
    Seq<char>,
> {
    match templates_for(cfg, listener, route) {
        Err(e) => Some(e),
        Ok((rt, _)) => match ladder::type_of(route, rt) {
            None => Some(about(route, ": missing type"@)),
            Some(t) => match runtime_type(transport, t) {
                None => Some(
                    about(route, ": type "@) + type_word(t) + " is incompatible with "@ + (match transport {
                        ListenerTransport::Tcp => "Tcp"@,
                        ListenerTransport::Quic => "Quic"@,
                    }),
                ),
                Some(_) => if upstream::resolved_upstream(
                    ladder::upstream_spec_of(route, rt),
                    listener.addr.port,
                ) is None {
                    Some(about(route, ": invalid upstream"@))
                } else {
                    None
                },
            },
        },
    }
}

/// The resolver that looks up a route's ECH configuration: its own, else that of
/// its addresses, else the system's.
pub open spec fn ech_resolver_of(eff: Effective) -> Seq<char> {
    match (eff.ech_resolver, eff.addr_resolver) {
        (Some(r), _) => r@,
        (None, Some(r)) => r@,
        (None, None) => "system"@,
    }
}

/// The resolver of a route's addresses.
pub open spec fn addr_resolver_of(eff: Effective) -> Seq<char> {
    match eff.addr_resolver {
        Some(r) => r@,
        None => Seq::<char>::empty(),
    }
}

/// Whether a route type offers ECH.
pub open spec fn has_ech(t: RouteType) -> bool {
    t == RouteType::Ech || t == RouteType::H3Ech
}

/// What a route's settings come to.
pub ghost struct Resolved {
    pub route_type: RouteType,
    pub host: Option<Seq<char>>,
    pub port: nat,
    pub sni: SniView,
    pub eff: Effective,
    pub ech: EffectiveEch,
    pub http2: EffectiveHttp2,
}

/// Whether settings are what a route comes to.
pub open spec fn resolves(
    cfg: Config,
    listener: Listener,
    transport: ListenerTransport,
    route: Route,
    s: Resolved,
) -> bool {
    &&& templates_for(cfg, listener, route) matches Ok((rt, lt))
    &&& ({
        let p = Place { global: cfg.global, listener, route, route_template: rt, listener_template: lt };
        &&& ladder::is_effective(p, s.eff)
        &&& ladder::is_effective_ech(p, s.ech)
        &&& ladder::is_effective_http2(p, s.http2)
        &&& ladder::type_of(route, rt) matches Some(t)
        &&& runtime_type(transport, t) == Some(s.route_type)
        &&& upstream::resolved_upstream(ladder::upstream_spec_of(route, rt), listener.addr.port) == Some(
            (s.host, s.port),
        )
        &&& s.sni == config::sni_policy_of(ladder::override_sni_of(route, rt))
    })
}

/// What decides which names may share a certificate of a route.
pub open spec fn forwarding_of(s: Resolved) -> ForwardingView {
    ForwardingView {
        route_type: s.route_type,
        host: s.host,
        port: s.port as u16,
        sni: s.sni,
        family: s.eff.address_family,
        nat64: text::opt_text(s.eff.nat64_prefix),
        addr_resolver: addr_resolver_of(s.eff),
        ech: if has_ech(s.route_type) {
            Some(
                certscope::EchView {
                    mode: s.ech.mode,
                    domain: text::opt_text(s.ech.ech_domain),
                    resolver: ech_resolver_of(s.eff),
                    inline_config: s.ech.config is Some,
                },
            )
        } else {
            None
        },
    }
}

/// Whether the HTTP/2 of a route's backend is tried at startup: only in the clear,
/// where the backend cannot say so itself, and only at a fixed host.
pub open spec fn is_probed(s: Resolved) -> bool {
    s.http2.enabled && s.route_type == RouteType::Http && s.http2.probe != H2Probe::Off && s.host is Some
}

/// Whether a route is set up as its settings say.
pub open spec fn set_up(r: RouteSetup, route: Route, s: Resolved) -> bool {
    &&& r.runtime.name@ == references::label_of(route)
    &&& r.runtime.route_type == s.route_type
    &&& text::opt_text(r.runtime.upstream_host) == s.host
    &&& r.runtime.upstream_port == s.port
    &&& r.runtime.sni_policy@ == s.sni
    &&& r.runtime.http2 == s.http2.enabled
    &&& r.runtime.require_ech == s.eff.require_ech
    &&& r.runtime.max_retries == s.ech.max_retries
    &&& r.runtime.connect_timeout == s.eff.connect_timeout
    &&& r.runtime.idle_timeout == s.eff.idle_timeout
    &&& r.runtime.address_family == s.eff.address_family
    &&& r.runtime.nat64 == if s.eff.address_family == AddressFamily::Ipv6 {
        None
    } else {
        s.eff.nat64_prefix
    }
    &&& r.runtime.fail == s.eff.fail
    &&& r.forwarding@ == forwarding_of(s)
    &&& r.addr_resolver@ == addr_resolver_of(s.eff)
    &&& match r.ech {
        Some(e) => {
            &&& has_ech(s.route_type)
            &&& e.settings == s.ech
            &&& e.resolver@ == ech_resolver_of(s.eff)
            &&& e.enable_sni == (s.sni !is Omit)
            &&& e.refresh == s.eff.ech_refresh
        },
        None => !has_ech(s.route_type),
    }
    &&& match r.probe {
        Some(p) => {
            &&& is_probed(s)
            &&& p.route@ == references::label_of(route)
            &&& Some(p.host@) == s.host
            &&& p.port == s.port
            &&& p.policy == s.http2.probe
            &&& p.budget == s.http2.probe_timeout
        },
        None => !is_probed(s),
    }
}

fn text_or_empty(s: &Option<String>) -> (r: String)
    ensures
        r@ == (match *s {
            Some(t) => t@,
            None => Seq::<char>::empty(),
        }),
{
    match s {
        Some(t) => t.clone(),
        None => {
            let empty = String::new();
            assert(empty@ =~= Seq::<char>::empty());
            empty
        },
    }
}

/// Set up one route: flatten its settings, fix where it goes and under which name,
/// and what may share its certificates.
pub fn build_route(cfg: &Config, listener: &Listener, transport: ListenerTransport, route: &Route) -> (r: Result<
    RouteSetup,
    String,
>)
    ensures
        match r {
            Ok(setup) => refusal(*cfg, *listener, transport, *route) is None && exists|s: Resolved| #[trigger]
                resolves(*cfg, *listener, transport, *route, s) && set_up(setup, *route, s),
            Err(m) => refusal(*cfg, *listener, transport, *route) == Some(m@),
        },
{
    let rt_tpl = match cfg.template_for(&route.use_template) {
        Ok(t) => t,
        Err(e) => return Err(e.message()),
    };
    let ln_tpl = match cfg.template_for(&listener.use_template) {
        Ok(t) => t,
        Err(e) => return Err(e.message()),
    };
    let label = route.label();
    let eff = cfg.effective(listener, route, rt_tpl, ln_tpl);
    let configured = match Config::effective_route_type(route, rt_tpl) {
        Some(t) => t,
        None => return Err(concat3("route ", label.as_str(), ": missing type")),
    };
    let route_type = match runtime_route_type(transport, configured) {
        Some(t) => t,
        None => {
            let mut m = concat3("route ", label.as_str(), ": type ");
            push_text(&mut m, name_of_type(configured));
            push_text(&mut m, " is incompatible with ");
            match transport {
                ListenerTransport::Tcp => push_text(&mut m, "Tcp"),
                ListenerTransport::Quic => push_text(&mut m, "Quic"),
            }
            return Err(m);
        },
    };
    let (host, port) = match resolved_upstream_from(route.upstream_spec(rt_tpl), listener.addr.port) {
        Some(v) => v,
        None => return Err(concat3("route ", label.as_str(), ": invalid upstream")),
    };
    let sni_policy = route.sni_policy(rt_tpl);
    let enable_sni = match &sni_policy {
        SniPolicy::Omit => false,
        _ => true,
    };
    let nat64 = match eff.address_family {
        AddressFamily::Ipv6 => None,
        _ => text::copy_opt(&eff.nat64_prefix),
    };
    let addr_resolver = text_or_empty(&eff.addr_resolver);
    let eff_ech = cfg.effective_ech(listener, route, rt_tpl, ln_tpl);
    let eff_http2 = cfg.effective_http2(listener, route, rt_tpl, ln_tpl);
    let ghost s = Resolved {
        route_type,
        host: text::opt_text(host),
        port: port as nat,
        sni: sni_policy@,
        eff,
        ech: eff_ech,
        http2: eff_http2,
    };
    assert(resolves(*cfg, *listener, transport, *route, s));

    let offers_ech = match route_type {
        RouteType::Ech => true,
        RouteType::H3Ech => true,
        _ => false,
    };
    let max_retries = eff_ech.max_retries;
    let (identity, ech) = if offers_ech {
        let resolver = match &eff.ech_resolver {
            Some(r) => r.clone(),
            None => match &eff.addr_resolver {
                Some(r) => r.clone(),
                None => "system".to_owned(),
            },
        };
        let identity = EchIdentity {
            mode: eff_ech.mode,
            domain: text::copy_opt(&eff_ech.ech_domain),
            resolver: resolver.clone(),
            inline_config: eff_ech.config.is_some(),
        };
        (Some(identity), Some(EchSetup { settings: eff_ech, resolver, enable_sni, refresh: eff.ech_refresh }))
    } else {
        (None, None)
    };
    let probing = match (route_type, eff_http2.probe) {
        (_, H2Probe::Off) => false,
        (RouteType::Http, _) => eff_http2.enabled,
        _ => false,
    };
    let probe = if probing {
        match &host {
            Some(h) => Some(
                ProbeTarget {
                    route: label.clone(),
                    host: h.clone(),
                    port,
                    policy: eff_http2.probe,
                    budget: eff_http2.probe_timeout,
                },
            ),
            None => None,
        }
    } else {
        None
    };
    let forwarding = Forwarding {
        route_type,
        host: text::copy_opt(&host),
        port,
        sni: route.sni_policy(rt_tpl),
        family: eff.address_family,
        nat64: text::copy_opt(&eff.nat64_prefix),
        addr_resolver: addr_resolver.clone(),
        ech: identity,
    };
    let setup = RouteSetup {
        runtime: RouteRuntime {
            name: label,
            route_type,
            upstream_host: host,
            upstream_port: port,
            sni_policy,
            http2: eff_http2.enabled,
            require_ech: eff.require_ech,
            max_retries,
            connect_timeout: eff.connect_timeout,
            idle_timeout: eff.idle_timeout,
            address_family: eff.address_family,
            nat64,
            fail: eff.fail,
        },
        forwarding,
        addr_resolver,
        ech,
        probe,
    };
    assert(set_up(setup, *route, s));
    Ok(setup)
}

// ---------------------------------------------------------------------------
// Listeners
// ---------------------------------------------------------------------------

/// What a listener runs with. A route is known by its place in the lists; the
/// catch-all, if there is one, is the last.
#[derive(Debug)]
pub struct ListenerSetup {
    pub routes: Vec<RouteSetup>,
    /// The patterns of each route; none for the catch-all.
    pub patterns: Vec<Vec<String>>,
    pub default_id: Option<usize>,
    /// What the certificates of each route are kept under.
    pub scopes: Vec<CertScope>,
}

/// The first of the routes that cannot be set up.
pub open spec fn first_refusal(
    cfg: Config,
    listener: Listener,
    transport: ListenerTransport,
    routes: Seq<Route>,
    from: int,
) -> Option<Seq<char>>
    decreases routes.len() - from,
{
    if from < 0 || from >= routes.len() {
        None
    } else {
        match refusal(cfg, listener, transport, routes[from]) {
            Some(m) => Some(m),
            None => first_refusal(cfg, listener, transport, routes, from + 1),
        }
    }
}

/// Whether a route of a listener is set up as its settings say.
pub open spec fn set_up_in(
    cfg: Config,
    listener: Listener,
    transport: ListenerTransport,
    route: Route,
    setup: RouteSetup,
) -> bool {
    exists|s: Resolved| #[trigger] resolves(cfg, listener, transport, route, s) && set_up(setup, route, s)
}

fn add_route(
    cfg: &Config,
    listener: &Listener,
    transport: ListenerTransport,
    route: &Route,
    patterns: Vec<String>,
    out: &mut ListenerSetup,
) -> (r: Result<(), String>)
    requires
        old(out).patterns@.len() == old(out).routes@.len(),
    ensures
        final(out).default_id == old(out).default_id,
        final(out).scopes@ == old(out).scopes@,
        match r {
            Ok(_) => {
                &&& refusal(*cfg, *listener, transport, *route) is None
                &&& final(out).routes@.len() == old(out).routes@.len() + 1
                &&& final(out).routes@.drop_last() == old(out).routes@
                &&& set_up_in(*cfg, *listener, transport, *route, final(out).routes@.last())
                &&& final(out).patterns@ == old(out).patterns@.push(patterns)
            },
            Err(m) => refusal(*cfg, *listener, transport, *route) == Some(m@),
        },
{
    match build_route(cfg, listener, transport, route) {
        Ok(setup) => {
            let ghost before = out.routes@;
            out.routes.push(setup);
            assert(out.routes@.drop_last() =~= before);
            out.patterns.push(patterns);
            Ok(())
        },
        Err(m) => Err(m),
    }
}

/// Set up a listener: its routes in order, then its catch-all, and the scopes of
/// their certificates. The routing table is part of every scope.
pub fn build_listener(cfg: &Config, listener: &Listener, transport: ListenerTransport) -> (r: Result<
    ListenerSetup,
    String,
>)
    requires
        listener.routes.len() < usize::MAX,
    ensures
        match r {
            Err(m) => first_refusal(*cfg, *listener, transport, references::all_routes(*listener), 0) == Some(m@),
            Ok(l) => {
                let all = references::all_routes(*listener);
                let n = listener.routes@.len();
                &&& first_refusal(*cfg, *listener, transport, all, 0) is None
                &&& l.routes@.len() == all.len()
                &&& forall|i: int|
                    0 <= i < all.len() ==> set_up_in(*cfg, *listener, transport, all[i], #[trigger] l.routes@[i])
                &&& l.patterns@.len() == all.len()
                &&& forall|i: int|
                    0 <= i < n ==> text::texts((#[trigger] l.patterns@[i])@) == text::texts(
                        listener.routes@[i].match_sni@,
                    )
                &&& match l.default_id {
                    Some(id) => listener.default_route is Some && id == n && l.patterns@[id as int]@.len() == 0,
                    None => listener.default_route is None,
                }
                &&& l.scopes@.len() == all.len()
                &&& forall|i: int|
                    0 <= i < all.len() ==> (#[trigger] l.scopes@[i])@ == certscope::scope_key(
                        certscope::fingerprint_of(l.patterns@, l.default_id, cfg.regexes@),
                        l.routes@[i].forwarding@,
                    )
            },
        },
{
    let ghost all = references::all_routes(*listener);
    let mut out = ListenerSetup {
        routes: Vec::new(),
        patterns: Vec::new(),
        default_id: None,
        scopes: Vec::new(),
    };
    let mut i: usize = 0;
    while i < listener.routes.len()
        invariant
            i <= listener.routes@.len(),
            all == references::all_routes(*listener),
            first_refusal(*cfg, *listener, transport, all, 0) == first_refusal(*cfg, *listener, transport, all, i as int),
            out.routes@.len() == i,
            out.patterns@.len() == i,
            out.default_id is None,
            out.scopes@.len() == 0,
            forall|k: int|
                0 <= k < i ==> set_up_in(*cfg, *listener, transport, all[k], #[trigger] out.routes@[k]),
            forall|k: int|
                0 <= k < i ==> text::texts((#[trigger] out.patterns@[k])@) == text::texts(listener.routes@[k].match_sni@),
        decreases listener.routes@.len() - i,
    {
        assert(all[i as int] == listener.routes@[i as int]);
        let patterns = text::copy_list(&listener.routes[i].match_sni);
        let ghost before = out.routes@;
        match add_route(cfg, listener, transport, &listener.routes[i], patterns, &mut out) {
            Ok(_) => {},
            Err(m) => return Err(m),
        }
        assert forall|k: int| 0 <= k < i + 1 implies set_up_in(*cfg, *listener, transport, all[k], #[trigger] out.routes@[k]) by {
            if k < i {
                assert(out.routes@.drop_last()[k] == before[k]);
                assert(out.routes@[k] == before[k]);
            }
        }
        i = i + 1;
    }
    match &listener.default_route {
        Some(d) => {
            assert(all[i as int] == *d);
            let none: Vec<String> = Vec::new();
            let ghost before = out.routes@;
            match add_route(cfg, listener, transport, d, none, &mut out) {
                Ok(_) => {},
                Err(m) => return Err(m),
            }
            out.default_id = Some(i);
            assert(first_refusal(*cfg, *listener, transport, all, i + 1) is None);
            assert forall|k: int| 0 <= k < i + 1 implies set_up_in(
                *cfg,
                *listener,
                transport,
                all[k],
                #[trigger] out.routes@[k],
            ) by {
                if k < i {
                    assert(out.routes@.drop_last()[k] == before[k]);
                    assert(out.routes@[k] == before[k]);
                }
            }
        },
        None => {},
    }
    let fp = certscope::router_fingerprint(&out.patterns, out.default_id, &cfg.regexes);
    let mut scopes: Vec<CertScope> = Vec::new();
    let mut j: usize = 0;
    while j < out.routes.len()
        invariant
            j <= out.routes@.len(),
            scopes@.len() == j,
            forall|k: int|
                0 <= k < j ==> (#[trigger] scopes@[k])@ == certscope::scope_key(fp, out.routes@[k].forwarding@),
        decreases out.routes@.len() - j,
    {
        scopes.push(CertScope::new(fp, &out.routes[j].forwarding));
        j = j + 1;
    }
    out.scopes = scopes;
    Ok(out)
}

// ---------------------------------------------------------------------------
// Resolvers
// ---------------------------------------------------------------------------

/// Where the resolver for a spec comes from.
#[derive(Debug, Clone, Copy, PartialEq, Eq, Structural)]
pub enum ResolverSource {
    /// The declared one at this place.
    Named(usize),
    /// One that was built before, for the same spec and family.
    Cached(usize),
    /// It has to be built.
    Build,
}

/// Whether a resolver was built for a spec and a family.
pub open spec fn is_cached(cache: Seq<(String, AddressFamily)>, spec: Seq<char>, family: AddressFamily, i: int) -> bool {
    0 <= i < cache.len() && cache[i].0@ == spec && cache[i].1 == family
}

/// Find the resolver for a spec: the declared one for a reference, whatever its
/// family; else one that was built before, or a new one.
pub fn get_resolver(
    registry: &Vec<String>,
    cache: &Vec<(String, AddressFamily)>,
    spec: &str,
    family: AddressFamily,
) -> (r: Result<ResolverSource, String>)
    ensures
        if references::is_ref(spec@) {
            match r {
                Ok(ResolverSource::Named(i)) => i < registry@.len() && registry@[i as int]@ == references::ref_name(
                    spec@,
                ),
                Ok(_) => false,
                Err(m) => !text::texts(registry@).contains(references::ref_name(spec@)) && m@
                    == "unknown resolver @"@ + references::ref_name(spec@),
            }
        } else {
            match r {
                Ok(ResolverSource::Cached(i)) => is_cached(cache@, spec@, family, i as int),
                Ok(ResolverSource::Build) => forall|i: int| !is_cached(cache@, spec@, family, i),
                _ => false,
            }
        },
{
    if Config::is_resolver_ref(spec) {
        let t = text::trimmed_chars(spec);
        let name = text::string_of(vstd::slice::slice_subrange(t.as_slice(), 1, t.len()));
        assert(name@ =~= references::ref_name(spec@));
        let mut i: usize = 0;
        while i < registry.len()
            invariant
                i <= registry@.len(),
                name@ == references::ref_name(spec@),
                references::is_ref(spec@),
                forall|k: int| 0 <= k < i ==> (#[trigger] registry@[k])@ != name@,
            decreases registry@.len() - i,
        {
            if text::same_text(registry[i].as_str(), name.as_str()) {
                return Ok(ResolverSource::Named(i));
            }
            i = i + 1;
        }
        assert(!text::texts(registry@).contains(name@)) by {
            assert forall|k: int| 0 <= k < registry@.len() implies text::texts(registry@)[k] != name@ by {
                assert(registry@[k]@ != name@);
            }
        }
        let mut m = "unknown resolver @".to_owned();
        push_text(&mut m, name.as_str());
        return Err(m);
    }
    let mut i: usize = 0;
    while i < cache.len()
        invariant
            i <= cache@.len(),
            !references::is_ref(spec@),
            forall|k: int| 0 <= k < i ==> !is_cached(cache@, spec@, family, k),
        decreases cache@.len() - i,
    {
        if text::same_text(cache[i].0.as_str(), spec) && cache[i].1 == family {
            return Ok(ResolverSource::Cached(i));
        }
        i = i + 1;
    }
    Ok(ResolverSource::Build)
}

// ---------------------------------------------------------------------------
// Laws
// ---------------------------------------------------------------------------

/// A raw route is raw on both transports; a route that terminates TLS terminates HTTP/3
/// on QUIC, with ECH where it has ECH; plain HTTP has no QUIC form; the HTTP/3 types are
/// not for a document to name.
pub proof fn law_types_follow_the_transport(transport: ListenerTransport)
    ensures
        runtime_type(transport, RouteType::Raw) == Some(RouteType::Raw),
        runtime_type(ListenerTransport::Tcp, RouteType::Tls) == Some(RouteType::Tls),
        runtime_type(ListenerTransport::Tcp, RouteType::Ech) == Some(RouteType::Ech),
        runtime_type(ListenerTransport::Tcp, RouteType::Http) == Some(RouteType::Http),
        runtime_type(ListenerTransport::Quic, RouteType::Tls) == Some(RouteType::H3),
        runtime_type(ListenerTransport::Quic, RouteType::Ech) == Some(RouteType::H3Ech),
        runtime_type(ListenerTransport::Quic, RouteType::Http) is None,
        runtime_type(transport, RouteType::H3) is None,
        runtime_type(transport, RouteType::H3Ech) is None,
{
}

/// A route is set up exactly where its templates exist, it has a type that its transport
/// can carry, and its upstream can be read.
pub proof fn law_route_is_set_up_unless_it_cannot(
    cfg: Config,
    listener: Listener,
    transport: ListenerTransport,
    route: Route,
)
    ensures
        route.use_template is None && listener.use_template is None ==> (refusal(cfg, listener, transport, route) is None
            <==> {
            &&& route.route_type matches Some(t)
            &&& t != RouteType::H3 && t != RouteType::H3Ech && !(t == RouteType::Http && transport
                == ListenerTransport::Quic)
            &&& route.upstream matches Some(u) ==> upstream::upstream_of(text::trim(u@)) is Some
        }),
{
}

/// What a route itself says is what it runs with, whatever stands around it.
pub proof fn law_own_settings_are_run_with(
    cfg: Config,
    listener: Listener,
    transport: ListenerTransport,
    route: Route,
    s: Resolved,
    r: RouteSetup,
)
    requires
        resolves(cfg, listener, transport, route, s),
        set_up(r, route, s),
    ensures
        route.name matches Some(n) ==> r.runtime.name@ == n@,
        route.common.connect_timeout matches Some(d) ==> r.runtime.connect_timeout == d,
        route.common.idle_timeout matches Some(d) ==> r.runtime.idle_timeout == d,
        route.common.address_family matches Some(f) ==> r.runtime.address_family == f && r.forwarding@.family == f,
        route.common.address_family == Some(AddressFamily::Ipv6) ==> r.runtime.nat64 is None,
        route.common.address_family matches Some(f) ==> (f != AddressFamily::Ipv6 && route.common.nat64_prefix is Some
            ==> r.runtime.nat64 == route.common.nat64_prefix),
        route.common.addr_resolver matches Some(a) ==> r.addr_resolver@ == a@ && r.forwarding@.addr_resolver == a@,
        route.fail matches Some(f) ==> r.runtime.fail == f,
        route.override_sni matches Some(o) ==> (text::trim(o@).len() == 0 ==> r.runtime.sni_policy@ == SniView::Omit),
        route.override_sni matches Some(o) ==> (text::trim(o@).len() > 0 ==> r.runtime.sni_policy@ == SniView::Fixed(
            text::trim(o@),
        )),
        route.ech matches Some(e) ==> (e.max_retries matches Some(n) ==> r.runtime.max_retries == n),
        route.ech matches Some(e) ==> (e.require_ech matches Some(b) ==> r.runtime.require_ech == b),
        route.http2 matches Some(h) ==> (h.enabled matches Some(b) ==> (route.route_type is Some && route.route_type
            != Some(RouteType::Raw) ==> r.runtime.http2 == b)),
        route.upstream is None && route.use_template is None ==> r.runtime.upstream_host is None
            && r.runtime.upstream_port == listener.addr.port,
{
}

/// ECH is set up for the routes that have it and for no other, with the resolver that
/// looks its config up: the route's ECH resolver, else its address resolver, else the
/// system's. Its inner hello names the server unless the name is left out.
pub proof fn law_ech_is_set_up_for_ech_routes(route: Route, s: Resolved, r: RouteSetup)
    requires
        set_up(r, route, s),
    ensures
        r.runtime.route_type == s.route_type,
        r.ech is Some <==> s.route_type == RouteType::Ech || s.route_type == RouteType::H3Ech,
        r.forwarding@.ech is Some <==> s.route_type == RouteType::Ech || s.route_type == RouteType::H3Ech,
        r.ech matches Some(e) ==> {
            &&& e.settings == s.ech
            &&& e.refresh == s.eff.ech_refresh
            &&& e.enable_sni <==> s.sni != SniView::Omit
            &&& s.eff.ech_resolver matches Some(x) ==> e.resolver@ == x@
            &&& s.eff.ech_resolver is None ==> (s.eff.addr_resolver matches Some(x) ==> e.resolver@ == x@)
            &&& s.eff.ech_resolver is None && s.eff.addr_resolver is None ==> e.resolver@ == "system"@
            &&& r.forwarding@.ech matches Some(v) && v.resolver == e.resolver@ && v.mode == s.ech.mode
                && v.inline_config == (s.ech.config is Some)
        },
{
}

/// A backend is probed before the start exactly where its route speaks plain HTTP, allows
/// HTTP/2, wants a probe, and names its host; the probe goes where the route goes, under
/// the route's policy, within its time.
pub proof fn law_cleartext_http2_is_probed(route: Route, s: Resolved, r: RouteSetup)
    requires
        set_up(r, route, s),
    ensures
        r.probe is Some <==> {
            &&& s.route_type == RouteType::Http
            &&& s.http2.enabled
            &&& s.http2.probe != H2Probe::Off
            &&& s.host is Some
        },
        r.probe matches Some(p) ==> {
            &&& p.route@ == r.runtime.name@
            &&& r.runtime.upstream_host matches Some(h) && p.host@ == h@
            &&& p.port == r.runtime.upstream_port
            &&& p.policy == s.http2.probe
            &&& p.budget == s.http2.probe_timeout
        },
{
}

/// What decides which names share a certificate is where the route goes: its type, host,
/// port, SNI, address family, projection and resolver.
pub proof fn law_forwarding_is_where_the_route_goes(route: Route, s: Resolved, r: RouteSetup)
    requires
        set_up(r, route, s),
    ensures
        r.forwarding@.route_type == r.runtime.route_type,
        r.forwarding@.host == text::opt_text(r.runtime.upstream_host),
        s.port <= 65535 ==> r.forwarding@.port == r.runtime.upstream_port,
        r.forwarding@.sni == r.runtime.sni_policy@,
        r.forwarding@.family == r.runtime.address_family,
        r.forwarding@.nat64 == text::opt_text(s.eff.nat64_prefix),
        r.forwarding@.addr_resolver == r.addr_resolver@,
        s.eff.addr_resolver is None ==> r.addr_resolver@.len() == 0,
{
}

/// A listener is set up where every one of its routes can be; else the first route that
/// cannot is the reason.
pub proof fn law_first_bad_route_is_the_reason(
    cfg: Config,
    listener: Listener,
    transport: ListenerTransport,
    routes: Seq<Route>,
    from: int,
    k: int,
)
    requires
        0 <= from <= routes.len(),
    ensures
        first_refusal(cfg, listener, transport, routes, from) is None <==> forall|i: int|
            from <= i < routes.len() ==> refusal(cfg, listener, transport, #[trigger] routes[i]) is None,
        from <= k < routes.len() && refusal(cfg, listener, transport, routes[k]) is Some && (forall|i: int|
            from <= i < k ==> refusal(cfg, listener, transport, #[trigger] routes[i]) is None) ==> first_refusal(
            cfg,
            listener,
            transport,
            routes,
            from,
        ) == refusal(cfg, listener, transport, routes[k]),
    decreases routes.len() - from,
{
    if from < routes.len() {
        law_first_bad_route_is_the_reason(cfg, listener, transport, routes, from + 1, k);
        if refusal(cfg, listener, transport, routes[from]) is Some {
            assert(refusal(cfg, listener, transport, routes[from]) is Some);
        }
    }
}

} // verus!
