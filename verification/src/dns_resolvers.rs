//! Named DNS resolvers: how one is reached, what it presents, and when it is
//! built anew.
//!
//! `upstream` moves where a resolver is dialed, `override_sni` the name it is
//! spoken to under. The two move apart.

use crate::config::references;
use crate::config::upstream;
use crate::config::upstream::resolved_upstream_from;
use crate::config::{AddressFamily, Config, EchMode, EffectiveEch, EffectiveResolver, SniPolicy, SniView};
use crate::dns;
use crate::dns::Strategy;
use crate::ech;
use crate::ech::{EchError, ResolverEch};
use crate::net;
use crate::net::{IpAddr, SocketAddr};
use crate::octets;
use crate::text;
use crate::text::{concat3, concat5, push_text};
use crate::time::Duration;
use rustls::{ClientConfig, RootCertStore};
use std::sync::Arc;
use vstd::prelude::*;
use vstd::slice::slice_subrange;

verus! {

// ---------------------------------------------------------------------------
// Endpoints
// ---------------------------------------------------------------------------

/// The transport of a named resolver. The host stays as it was written.
#[derive(Debug, Clone, PartialEq, Eq)]
pub enum Endpoint {
    /// The system's own resolver.
    System,
    /// DNS over HTTPS.
    Doh { host: String, port: u16, path: String },
    /// DNS over TLS.
    Dot { host: String, port: u16 },
    /// Plain DNS, at an address or under a name.
    Plain { target: String, port: u16 },
}

/// What an [`Endpoint`] says.
pub enum EndpointView {
    System,
    Doh { host: Seq<char>, port: nat, path: Seq<char> },
    Dot { host: Seq<char>, port: nat },
    Plain { target: Seq<char>, port: nat },
}

impl View for Endpoint {
    type V = EndpointView;

    open spec fn view(&self) -> EndpointView {
        match self {
            Endpoint::System => EndpointView::System,
            Endpoint::Doh { host, port, path } => EndpointView::Doh { host: host@, port: *port as nat, path: path@ },
            Endpoint::Dot { host, port } => EndpointView::Dot { host: host@, port: *port as nat },
            Endpoint::Plain { target, port } => EndpointView::Plain { target: target@, port: *port as nat },
        }
    }
}

impl EndpointView {
    /// The name that the endpoint gives, if it is one and not an address.
    pub open spec fn host(self) -> Option<Seq<char>> {
        match self {
            EndpointView::System => None,
            EndpointView::Doh { host, .. } => Some(host),
            EndpointView::Dot { host, .. } => Some(host),
            EndpointView::Plain { target, .. } => if net::ip(target) is Some {
                None
            } else {
                Some(target)
            },
        }
    }

    pub open spec fn port(self) -> nat {
        match self {
            EndpointView::System => 53,
            EndpointView::Doh { port, .. } => port,
            EndpointView::Dot { port, .. } => port,
            EndpointView::Plain { port, .. } => port,
        }
    }

    pub open spec fn is_tls(self) -> bool {
        self is Doh || self is Dot
    }
}

/// That an endpoint lacks a host.
pub open spec fn no_host(s: Seq<char>) -> Seq<char> {
    "endpoint "@ + text::quoted(s) + " has no host"@
}

/// That an endpoint is no address.
pub open spec fn no_address(s: Seq<char>) -> Seq<char> {
    "endpoint "@ + text::quoted(s)
        + " is not a valid ip[:port]. Plain DNS without udp:// or tcp:// prefix requires a literal IP address. Use udp://"@
        + s + " to specify a hostname, or https:// / tls:// for encrypted DNS"@
}

/// What a trimmed plain endpoint means: an address, or behind a scheme also a
/// name.
pub open spec fn plain_of(s: Seq<char>, body: Seq<char>, names: bool) -> Result<EndpointView, Seq<char>> {
    match dns::server_addr(body) {
        Some(addr) => Ok(EndpointView::Plain { target: net::ip_text(addr.ip), port: addr.port as nat }),
        None => if !names {
            Err(no_address(s))
        } else {
            let colon = text::last_char(body, ':', body.len() as int);
            let digits = body.subrange(colon + 1, body.len() as int);
            if colon >= 0 && digits.len() > 0 && text::all_digits(digits) {
                match text::number_up_to(digits, 65535) {
                    Some(port) => Ok(EndpointView::Plain { target: body.subrange(0, colon), port }),
                    None => Err("invalid port"@),
                }
            } else {
                Ok(EndpointView::Plain { target: body, port: 53 })
            }
        },
    }
}

/// What a trimmed endpoint means.
pub open spec fn endpoint_of(s: Seq<char>) -> Result<EndpointView, Seq<char>> {
    if dns::means_system(s) {
        Ok(EndpointView::System)
    } else if dns::behind(s, "https://"@) is Some {
        let (host, port, path) = dns::authority(dns::behind(s, "https://"@)->0);
        if host.len() == 0 {
            Err(no_host(s))
        } else {
            Ok(EndpointView::Doh { host, port: dns::port_or(port, 443), path: dns::query_path(path) })
        }
    } else if dns::behind(s, "tls://"@) is Some {
        let (host, port, path) = dns::authority(dns::behind(s, "tls://"@)->0);
        if host.len() == 0 {
            Err(no_host(s))
        } else {
            Ok(EndpointView::Dot { host, port: dns::port_or(port, 853) })
        }
    } else if dns::behind(s, "udp://"@) is Some {
        plain_of(s, dns::behind(s, "udp://"@)->0, true)
    } else if dns::behind(s, "tcp://"@) is Some {
        plain_of(s, dns::behind(s, "tcp://"@)->0, true)
    } else {
        plain_of(s, s, false)
    }
}

fn missing_host(s: &[char]) -> (r: String)
    ensures
        r@ == no_host(s@),
{
    let t = text::string_of(s);
    let q = text::quote(t.as_str());
    concat3("endpoint ", q.as_str(), " has no host")
}

fn plain(s: &[char], body: &[char], names: bool) -> (r: Result<Endpoint, String>)
    ensures
        match r {
            Ok(e) => plain_of(s@, body@, names) == Ok::<EndpointView, Seq<char>>(e@),
            Err(m) => plain_of(s@, body@, names) == Err::<EndpointView, Seq<char>>(m@),
        },
{
    match dns::parse_ip_addr(body) {
        Some(addr) => {
            let mut target = String::new();
            net::push_ip(&mut target, addr.ip);
            assert(target@ =~= net::ip_text(addr.ip));
            return Ok(Endpoint::Plain { target, port: addr.port });
        },
        None => {},
    }
    if !names {
        let t = text::string_of(s);
        let q = text::quote(t.as_str());
        return Err(
            concat5(
                "endpoint ",
                q.as_str(),
                " is not a valid ip[:port]. Plain DNS without udp:// or tcp:// prefix requires a literal IP address. Use udp://",
                t.as_str(),
                " to specify a hostname, or https:// / tls:// for encrypted DNS",
            ),
        );
    }
    match text::rfind_char(body, ':') {
        Some(colon) => {
            let n = body.len();
            let digits = slice_subrange(body, colon + 1, n);
            if digits.len() > 0 && text::only_digits(digits) {
                return match text::parse_number(digits, 65535) {
                    Some(port) => Ok(
                        Endpoint::Plain { target: text::string_of(slice_subrange(body, 0, colon)), port: port as u16 },
                    ),
                    None => Err("invalid port".to_owned()),
                };
            }
        },
        None => {},
    }
    Ok(Endpoint::Plain { target: text::string_of(body), port: 53 })
}

impl Endpoint {
    /// Parse an endpoint. Nothing is looked up: a host is kept as written.
    pub fn parse(s: &str) -> (r: Result<Self, String>)
        ensures
            match r {
                Ok(e) => endpoint_of(text::trim(s@)) == Ok::<EndpointView, Seq<char>>(e@),
                Err(m) => endpoint_of(text::trim(s@)) == Err::<EndpointView, Seq<char>>(m@),
            },
    {
        let t = text::trimmed_chars(s);
        if dns::is_system(t.as_slice()) {
            return Ok(Endpoint::System);
        }
        if let Some(rest) = dns::strip_prefix(t.as_slice(), "https://") {
            let (host, port, path) = dns::split_authority_path(rest);
            if host.as_str().unicode_len() == 0 {
                return Err(missing_host(t.as_slice()));
            }
            let port = match port {
                Some(p) => p,
                None => 443,
            };
            let path = if path.as_str().unicode_len() == 0 {
                "/dns-query".to_owned()
            } else {
                path
            };
            return Ok(Endpoint::Doh { host, port, path });
        }
        if let Some(rest) = dns::strip_prefix(t.as_slice(), "tls://") {
            let (host, port, _) = dns::split_authority_path(rest);
            if host.as_str().unicode_len() == 0 {
                return Err(missing_host(t.as_slice()));
            }
            let port = match port {
                Some(p) => p,
                None => 853,
            };
            return Ok(Endpoint::Dot { host, port });
        }
        if let Some(rest) = dns::strip_prefix(t.as_slice(), "udp://") {
            return plain(t.as_slice(), rest, true);
        }
        if let Some(rest) = dns::strip_prefix(t.as_slice(), "tcp://") {
            return plain(t.as_slice(), rest, true);
        }
        plain(t.as_slice(), t.as_slice(), false)
    }

    /// The host as written: what is dialed and what is presented unless the
    /// resolver says otherwise. An address is no host.
    pub fn host(&self) -> (r: Option<&str>)
        ensures
            text::opt_str(r) == self@.host(),
    {
        match self {
            Endpoint::System => None,
            Endpoint::Doh { host, .. } => Some(host.as_str()),
            Endpoint::Dot { host, .. } => Some(host.as_str()),
            Endpoint::Plain { target, .. } => {
                let cs = text::chars_of(target.as_str());
                if net::parse_ip(cs.as_slice()).is_some() {
                    None
                } else {
                    Some(target.as_str())
                }
            },
        }
    }

    /// The port.
    pub fn port(&self) -> (r: u16)
        ensures
            r == self@.port(),
    {
        match self {
            Endpoint::System => 53,
            Endpoint::Doh { port, .. } => *port,
            Endpoint::Dot { port, .. } => *port,
            Endpoint::Plain { port, .. } => *port,
        }
    }

    /// Whether there is a TLS handshake, so that an SNI and ECH mean anything.
    pub fn is_tls(&self) -> (r: bool)
        ensures
            r == self@.is_tls(),
    {
        match self {
            Endpoint::Doh { .. } => true,
            Endpoint::Dot { .. } => true,
            _ => false,
        }
    }

    /// A short label for diagnostics.
    pub fn kind(&self) -> (r: &'static str)
        ensures
            r@ == (match self@ {
                EndpointView::System => "system"@,
                EndpointView::Doh { .. } => "DoH"@,
                EndpointView::Dot { .. } => "DoT"@,
                EndpointView::Plain { .. } => "plain DNS"@,
            }),
    {
        match self {
            Endpoint::System => "system",
            Endpoint::Doh { .. } => "DoH",
            Endpoint::Dot { .. } => "DoT",
            Endpoint::Plain { .. } => "plain DNS",
        }
    }
}

// ---------------------------------------------------------------------------
// Plans
// ---------------------------------------------------------------------------

/// Which resolver does a job for another one.
#[derive(Debug, Clone, PartialEq, Eq)]
pub enum Helper {
    /// A declared one.
    Named(String),
    /// One that is written out.
    Inline(String),
    /// The system's own.
    System,
}

/// What a [`Helper`] says.
pub enum HelperView {
    Named(Seq<char>),
    Inline(Seq<char>),
    System,
}

impl View for Helper {
    type V = HelperView;

    open spec fn view(&self) -> HelperView {
        match self {
            Helper::Named(n) => HelperView::Named(n@),
            Helper::Inline(s) => HelperView::Inline(s@),
            Helper::System => HelperView::System,
        }
    }
}

/// Which resolver a spec asks for.
pub open spec fn helper_of(spec: Option<Seq<char>>) -> HelperView {
    match spec {
        None => HelperView::System,
        Some(s) => if references::is_ref(s) {
            HelperView::Named(references::ref_name(s))
        } else {
            HelperView::Inline(s)
        },
    }
}

/// Which resolver a spec asks for: a declared one by `@name`, else the one that is
/// written out, else the system's.
pub fn helper_for(spec: Option<&str>) -> (r: Helper)
    ensures
        r@ == helper_of(text::opt_str(spec)),
{
    match spec {
        None => Helper::System,
        Some(s) => {
            if Config::is_resolver_ref(s) {
                let t = text::trimmed_chars(s);
                let name = slice_subrange(t.as_slice(), 1, t.len());
                assert(name@ =~= references::ref_name(s@));
                Helper::Named(text::string_of(name))
            } else {
                Helper::Inline(s.to_owned())
            }
        },
    }
}

/// ECH on a resolver's own handshake.
#[derive(Debug, Clone)]
pub struct EchPlan {
    pub settings: EffectiveEch,
    /// Fail to build where nothing is published.
    pub require_ech: bool,
    /// How often to look for a new configuration.
    pub refresh: Duration,
    /// Who looks up the configuration.
    pub resolver: Helper,
}

/// Everything that a named resolver is built from, and built anew.
#[derive(Debug, Clone)]
pub struct ResolverPlan {
    /// The declared name.
    pub label: String,
    pub endpoint: Endpoint,
    /// The host to dial; empty where the endpoint has none and nothing overrides it,
    /// and for the system's own resolver.
    pub dial_host: String,
    pub dial_port: u16,
    /// The name to present, and to check the certificate against; none without TLS.
    pub server_name: Option<String>,
    /// Whether the hello names the server.
    pub enable_sni: bool,
    /// Family of the address that is dialed.
    pub family: AddressFamily,
    pub nat64: Option<String>,
    /// Bound on one query.
    pub connect_timeout: Duration,
    /// Who resolves the host to dial.
    pub bootstrap: Helper,
    pub ech: Option<EchPlan>,
}

/// Where a resolver is dialed: at `upstream`, in as far as it is given. The
/// system's own resolver is dialed at no host.
pub open spec fn dial_target(endpoint: EndpointView, upstream: Option<Seq<char>>) -> (Seq<char>, nat) {
    let own = match endpoint.host() {
        Some(h) => h,
        None => Seq::<char>::empty(),
    };
    match upstream::resolved_upstream(upstream, endpoint.port() as u16) {
        Some((Some(host), port)) => (
            if endpoint is System {
                own
            } else {
                host
            },
            port,
        ),
        Some((None, port)) => (own, port),
        None => (own, endpoint.port()),
    }
}

/// The name under which a resolver is spoken to, where it is spoken to over TLS.
pub open spec fn tls_name(endpoint: EndpointView, sni: SniView) -> Option<Seq<char>> {
    if !endpoint.is_tls() {
        None
    } else {
        match sni {
            SniView::Fixed(name) => Some(name),
            _ => endpoint.host(),
        }
    }
}

/// Text behind the name of a resolver's section.
pub open spec fn in_section(name: Seq<char>, rest: Seq<char>) -> Seq<char> {
    "[resolvers."@ + name + rest
}

fn section(name: &str, rest: &str) -> (r: String)
    ensures
        r@ == in_section(name@, rest@),
{
    concat3("[resolvers.", name, rest)
}

fn copy_ech(e: &EffectiveEch) -> (r: EffectiveEch)
    ensures
        r == *e,
{
    EffectiveEch {
        mode: e.mode,
        config: text::copy_opt(&e.config),
        ech_domain: text::copy_opt(&e.ech_domain),
        max_retries: e.max_retries,
    }
}

/// Whether a plan follows the settings of a resolver with the given endpoint.
pub open spec fn is_plan_of(p: ResolverPlan, eff: EffectiveResolver, e: EndpointView) -> bool {
    &&& p.valid()
    &&& p.label@ == eff.name@
    &&& p.endpoint@ == e
    &&& (p.dial_host@, p.dial_port as nat) == dial_target(e, text::opt_text(eff.upstream))
    &&& text::opt_text(p.server_name) == tls_name(e, eff.sni_policy@)
    &&& p.enable_sni == (eff.sni_policy@ !is Omit)
    &&& p.family == eff.address_family
    &&& p.nat64 == eff.nat64_prefix
    &&& p.connect_timeout == eff.connect_timeout
    &&& p.bootstrap@ == helper_of(text::opt_text(eff.bootstrap))
    &&& match (p.ech, eff.ech) {
        (Some(plan), Some(settings)) => {
            &&& plan.settings == settings
            &&& plan.require_ech == eff.require_ech
            &&& plan.refresh == eff.ech_refresh
            &&& plan.resolver@ == helper_of(text::opt_text(eff.ech_resolver))
        },
        (None, None) => true,
        _ => false,
    }
}

impl ResolverPlan {
    /// A TLS endpoint has a name to present.
    pub open spec fn valid(&self) -> bool {
        &&& self.endpoint@.is_tls() ==> self.server_name is Some
        &&& self.connect_timeout.valid()
        &&& self.ech matches Some(e) ==> e.refresh.valid()
    }

    /// Plan a resolver from its settings.
    pub fn new(eff: &EffectiveResolver) -> (r: Result<Self, String>)
        requires
            eff.connect_timeout.valid(),
            eff.ech_refresh.valid(),
        ensures
            match (r, endpoint_of(text::trim(eff.endpoint@))) {
                (Ok(p), Ok(e)) => is_plan_of(p, *eff, e) && upstream::resolved_upstream(
                    text::opt_text(eff.upstream),
                    e.port() as u16,
                ) is Some,
                (Err(m), Err(e)) => m@ == in_section(eff.name@, "] endpoint: "@) + e,
                (Err(m), Ok(e)) => eff.upstream matches Some(u) && upstream::resolved_upstream(
                    Some(u@),
                    e.port() as u16,
                ) is None && m@ == in_section(eff.name@, "]: invalid upstream "@) + text::quoted(u@),
                (Ok(_), Err(_)) => false,
            },
    {
        let endpoint = match Endpoint::parse(eff.endpoint.as_str()) {
            Ok(e) => e,
            Err(e) => {
                let mut m = section(eff.name.as_str(), "] endpoint: ");
                push_text(&mut m, e.as_str());
                return Err(m);
            },
        };
        let (up_host, dial_port) = match resolved_upstream_from(text::as_slice(&eff.upstream), endpoint.port()) {
            Some(target) => target,
            None => {
                let given = match &eff.upstream {
                    Some(u) => u.as_str(),
                    None => "",
                };
                let mut m = section(eff.name.as_str(), "]: invalid upstream ");
                push_text(&mut m, text::quote(given).as_str());
                return Err(m);
            },
        };
        let up_host = match &endpoint {
            Endpoint::System => None,
            _ => up_host,
        };
        let dial_host = match up_host {
            Some(h) => h,
            None => match endpoint.host() {
                Some(h) => h.to_owned(),
                None => {
                    let empty = String::new();
                    assert(empty@ =~= Seq::<char>::empty());
                    empty
                },
            },
        };
        let server_name = if !endpoint.is_tls() {
            None
        } else {
            match &eff.sni_policy {
                SniPolicy::Fixed(name) => Some(name.clone()),
                _ => match endpoint.host() {
                    Some(h) => Some(h.to_owned()),
                    None => None,
                },
            }
        };
        let enable_sni = match &eff.sni_policy {
            SniPolicy::Omit => false,
            _ => true,
        };
        let ech = match &eff.ech {
            Some(settings) => Some(
                EchPlan {
                    settings: copy_ech(settings),
                    require_ech: eff.require_ech,
                    refresh: eff.ech_refresh,
                    resolver: helper_for(text::as_slice(&eff.ech_resolver)),
                },
            ),
            None => None,
        };
        Ok(
            ResolverPlan {
                label: eff.name.clone(),
                endpoint,
                dial_host,
                dial_port,
                server_name,
                enable_sni,
                family: eff.address_family,
                nat64: text::copy_opt(&eff.nat64_prefix),
                connect_timeout: eff.connect_timeout,
                bootstrap: helper_for(text::as_slice(&eff.bootstrap)),
                ech,
            },
        )
    }

    /// The name whose HTTPS record carries the resolver's own configuration.
    pub open spec fn ech_name(&self, settings: EffectiveEch) -> Option<Seq<char>> {
        match (settings.ech_domain, self.server_name) {
            (Some(d), _) => Some(ech::record_name(d@, self.dial_port)),
            (None, Some(n)) => Some(ech::record_name(n@, self.dial_port)),
            (None, None) => None,
        }
    }

    /// The name whose HTTPS record carries the resolver's own configuration: the
    /// configured one, else the presented one.
    pub fn ech_lookup_name(&self, settings: &EffectiveEch) -> (r: Option<String>)
        ensures
            text::opt_text(r) == self.ech_name(*settings),
    {
        match &settings.ech_domain {
            Some(d) => Some(ech::https_lookup_name(d.as_str(), self.dial_port)),
            None => match &self.server_name {
                Some(n) => Some(ech::https_lookup_name(n.as_str(), self.dial_port)),
                None => None,
            },
        }
    }

    /// How many rejections one query survives. Without ECH nothing is rejected.
    pub open spec fn retries(&self) -> u32 {
        match self.ech {
            Some(e) => e.settings.max_retries,
            None => 0,
        }
    }

    /// How many rejections one query survives.
    pub fn max_retries(&self) -> (r: u32)
        ensures
            r == self.retries(),
    {
        match &self.ech {
            Some(e) => e.settings.max_retries,
            None => 0,
        }
    }
}

// ---------------------------------------------------------------------------
// Building
// ---------------------------------------------------------------------------

/// Where the address to dial comes from.
#[derive(Debug, Clone, PartialEq, Eq)]
pub enum Dial {
    /// The system's resolver is not dialed.
    Nowhere,
    /// It is known.
    At(IpAddr),
    /// The bootstrap resolves this host. The second text introduces its failure.
    Resolve(String, String),
}

/// What a [`Dial`] says.
pub enum DialView {
    Nowhere,
    At(IpAddr),
    Resolve(Seq<char>, Seq<char>),
}

impl View for Dial {
    type V = DialView;

    open spec fn view(&self) -> DialView {
        match self {
            Dial::Nowhere => DialView::Nowhere,
            Dial::At(ip) => DialView::At(*ip),
            Dial::Resolve(host, context) => DialView::Resolve(host@, context@),
        }
    }
}

/// What introduces the failure to resolve a host.
pub open spec fn resolving(label: Seq<char>, what: Seq<char>, host: Seq<char>, bootstrap: Seq<char>) -> Seq<char> {
    in_section(label, what) + text::quoted(host) + " through bootstrap "@ + text::quoted(bootstrap)
}

/// Where the address to dial comes from: a plain endpoint's own address where
/// nothing overrides it, else the bootstrap's answer for the host to dial.
pub open spec fn dial_of(plan: ResolverPlan, bootstrap: Seq<char>) -> DialView {
    let label = plan.label@;
    let elsewhere = DialView::Resolve(
        plan.dial_host@,
        resolving(label, "]: resolving dial host "@, plan.dial_host@, bootstrap),
    );
    match plan.endpoint@ {
        EndpointView::System => DialView::Nowhere,
        EndpointView::Plain { target, .. } => if plan.dial_host@.len() > 0 {
            elsewhere
        } else {
            match net::ip(target) {
                Some(ip) => DialView::At(ip),
                None => DialView::Resolve(
                    target,
                    resolving(label, "]: resolving plain endpoint target "@, target, bootstrap),
                ),
            }
        },
        _ => elsewhere,
    }
}

fn resolving_message(label: &str, what: &str, host: &str, bootstrap: &str) -> (r: String)
    ensures
        r@ == resolving(label@, what@, host@, bootstrap@),
{
    let mut m = section(label, what);
    push_text(&mut m, text::quote(host).as_str());
    push_text(&mut m, " through bootstrap ");
    push_text(&mut m, text::quote(bootstrap).as_str());
    m
}

/// The name server that a resolver asks.
#[derive(Debug, Clone, PartialEq, Eq)]
pub enum NameServer {
    /// The system's.
    System,
    Https { ip: IpAddr, port: u16, name: String, path: String },
    Tls { ip: IpAddr, port: u16, name: String },
    UdpAndTcp { ip: IpAddr, port: u16 },
}

/// What a [`NameServer`] says.
pub enum NameServerView {
    System,
    Https { ip: IpAddr, port: u16, name: Seq<char>, path: Seq<char> },
    Tls { ip: IpAddr, port: u16, name: Seq<char> },
    UdpAndTcp { ip: IpAddr, port: u16 },
}

impl View for NameServer {
    type V = NameServerView;

    open spec fn view(&self) -> NameServerView {
        match self {
            NameServer::System => NameServerView::System,
            NameServer::Https { ip, port, name, path } => NameServerView::Https {
                ip: *ip,
                port: *port,
                name: name@,
                path: path@,
            },
            NameServer::Tls { ip, port, name } => NameServerView::Tls { ip: *ip, port: *port, name: name@ },
            NameServer::UdpAndTcp { ip, port } => NameServerView::UdpAndTcp { ip: *ip, port: *port },
        }
    }
}

/// The options of a resolver.
#[derive(Debug, Clone, Copy, PartialEq, Eq, Structural)]
pub struct ResolverOptions {
    pub strategy: Strategy,
    /// Whether the local hosts file is read.
    pub hosts_file: bool,
    pub timeout: Duration,
}

/// What a resolver's ECH needs before it can be built.
#[derive(Debug, Clone, PartialEq, Eq)]
pub enum EchNeed {
    /// Nothing: it does not use ECH.
    Nothing,
    /// The inline configuration, in place of what the name publishes.
    Inline(String),
    /// What this name publishes.
    Lookup(String),
}

/// That there is no name to look up.
pub open spec fn no_ech_name(label: Seq<char>) -> Seq<char> {
    in_section(label, ".ech]: no name to look up an ECHConfig for; set `ech_domain`"@)
}

/// That nothing is published under a name though ECH is required.
pub open spec fn not_published(label: Seq<char>, name: Seq<char>) -> Seq<char> {
    in_section(label, "]: require_ech is set but no ECHConfig is published for "@) + text::quoted(name)
}

/// How a resolver's handshake offers ECH: the acquired list, or a placeholder where
/// ECH is on without one.
pub open spec fn offers(plan: ResolverPlan, list: Option<Seq<u8>>, mode: Option<ech::ModeView>) -> bool {
    match (plan.ech, list) {
        (None, _) => mode is None,
        (Some(_), Some(bytes)) => mode == Some(ech::ModeView::Real(bytes)),
        (Some(_), None) => mode matches Some(m) && m is Grease,
    }
}

/// The bytes of a list, if there is one.
pub open spec fn opt_bytes(list: Option<Vec<u8>>) -> Option<Seq<u8>> {
    match list {
        Some(b) => Some(b@),
        None => None,
    }
}

impl ResolverPlan {
    /// Where the address to dial comes from, given the label of the bootstrap.
    pub fn dial(&self, bootstrap: &str) -> (r: Dial)
        ensures
            r@ == dial_of(*self, bootstrap@),
    {
        match &self.endpoint {
            Endpoint::System => {
                return Dial::Nowhere;
            },
            Endpoint::Plain { target, .. } => {
                if self.dial_host.as_str().unicode_len() == 0 {
                    let cs = text::chars_of(target.as_str());
                    if let Some(ip) = net::parse_ip(cs.as_slice()) {
                        return Dial::At(ip);
                    }
                    let context = resolving_message(
                        self.label.as_str(),
                        "]: resolving plain endpoint target ",
                        target.as_str(),
                        bootstrap,
                    );
                    return Dial::Resolve(target.clone(), context);
                }
            },
            _ => {},
        }
        let context = resolving_message(
            self.label.as_str(),
            "]: resolving dial host ",
            self.dial_host.as_str(),
            bootstrap,
        );
        Dial::Resolve(self.dial_host.clone(), context)
    }

    /// What the resolver's ECH needs before it can be built.
    pub fn ech_need(&self) -> (r: Result<EchNeed, String>)
        ensures
            match self.ech {
                None => r matches Ok(n) && n is Nothing,
                Some(e) => match self.ech_name(e.settings) {
                    None => r matches Err(m) && m@ == no_ech_name(self.label@),
                    Some(name) => if e.settings.mode == EchMode::Static {
                        r matches Ok(EchNeed::Inline(n)) && n@ == name
                    } else {
                        r matches Ok(EchNeed::Lookup(n)) && n@ == name
                    },
                },
            },
    {
        match &self.ech {
            None => Ok(EchNeed::Nothing),
            Some(e) => match self.ech_lookup_name(&e.settings) {
                None => Err(
                    section(
                        self.label.as_str(),
                        ".ech]: no name to look up an ECHConfig for; set `ech_domain`",
                    ),
                ),
                Some(name) => match e.settings.mode {
                    EchMode::Static => Ok(EchNeed::Inline(name)),
                    _ => Ok(EchNeed::Lookup(name)),
                },
            },
        }
    }

    /// The ECHConfigList to build with, from what the lookup of `name` brought.
    pub fn ech_list(&self, plan: &EchPlan, name: &str, answer: &Result<Vec<ech::HttpsRecord>, String>) -> (r: Result<
        Option<Vec<u8>>,
        String,
    >)
        ensures
            match ech::resolver_acquired(plan.settings, ech::answer_view(*answer)) {
                Err(e) => r matches Err(m) && m@ == in_section(self.label@, "]: acquiring ECHConfig: "@) + e,
                Ok(Some(list)) => r matches Ok(Some(b)) && b@ == list,
                Ok(None) => if plan.require_ech {
                    r matches Err(m) && m@ == not_published(self.label@, name@)
                } else {
                    r matches Ok(None)
                },
            },
    {
        match ech::acquire_resolver_ech(&plan.settings, answer) {
            Err(e) => {
                let mut m = section(self.label.as_str(), "]: acquiring ECHConfig: ");
                push_text(&mut m, e.as_str());
                Err(m)
            },
            Ok(Some(list)) => Ok(Some(list)),
            Ok(None) => {
                if plan.require_ech {
                    let mut m = section(
                        self.label.as_str(),
                        "]: require_ech is set but no ECHConfig is published for ",
                    );
                    push_text(&mut m, text::quote(name).as_str());
                    return Err(m);
                }
                Ok(None)
            },
        }
    }

    /// The name server to ask, at the address that was found.
    pub fn name_server(&self, ip: Option<IpAddr>) -> (r: NameServer)
        requires
            self.valid(),
            self.endpoint@ !is System ==> ip is Some,
        ensures
            r@ == (match self.endpoint@ {
                EndpointView::System => NameServerView::System,
                EndpointView::Doh { path, .. } => NameServerView::Https {
                    ip: ip->0,
                    port: self.dial_port,
                    name: self.server_name->0@,
                    path,
                },
                EndpointView::Dot { .. } => NameServerView::Tls {
                    ip: ip->0,
                    port: self.dial_port,
                    name: self.server_name->0@,
                },
                EndpointView::Plain { .. } => NameServerView::UdpAndTcp { ip: ip->0, port: self.dial_port },
            }),
    {
        let port = self.dial_port;
        match &self.endpoint {
            Endpoint::System => NameServer::System,
            Endpoint::Doh { path, .. } => {
                let name = text::copy_opt(&self.server_name).unwrap();
                NameServer::Https { ip: ip.unwrap(), port, name, path: path.clone() }
            },
            Endpoint::Dot { .. } => {
                let name = text::copy_opt(&self.server_name).unwrap();
                NameServer::Tls { ip: ip.unwrap(), port, name }
            },
            Endpoint::Plain { .. } => NameServer::UdpAndTcp { ip: ip.unwrap(), port },
        }
    }

    /// The resolver's options. Only the system's own resolver reads the hosts file.
    pub fn options(&self) -> (r: ResolverOptions)
        ensures
            r.strategy == (match self.family {
                AddressFamily::Dual => Strategy::Ipv6thenIpv4,
                AddressFamily::Ipv4 => Strategy::Ipv4Only,
                AddressFamily::Ipv6 => Strategy::Ipv6Only,
            }),
            r.hosts_file == (self.endpoint@ is System),
            r.timeout == self.connect_timeout,
    {
        let hosts_file = match &self.endpoint {
            Endpoint::System => true,
            _ => false,
        };
        ResolverOptions { strategy: dns::strategy_for(self.family), hosts_file, timeout: self.connect_timeout }
    }

    /// Whether the resolver needs a TLS configuration of its own: for ECH, or to
    /// leave the name out of its hello.
    pub open spec fn needs_tls_config(&self) -> bool {
        self.endpoint@.is_tls() && (self.ech is Some || !self.enable_sni)
    }

    /// The TLS configuration to build with, if the resolver needs one of its own.
    pub fn tls_config(&self, list: &Option<Vec<u8>>, roots: &Arc<RootCertStore>) -> (r: Result<
        Option<ClientConfig>,
        EchError,
    >)
        ensures
            match r {
                Ok(None) => !self.needs_tls_config(),
                Ok(Some(c)) => {
                    let parts = ech::config_parts(c);
                    &&& self.needs_tls_config()
                    &&& parts.roots == **roots
                    &&& parts.sends_sni == self.enable_sni
                    &&& parts.alpn == Seq::<Seq<u8>>::empty()
                    &&& offers(*self, opt_bytes(*list), parts.mode)
                },
                Err(e) => self.needs_tls_config() && self.ech is Some && match *list {
                    Some(b) => e is NoCompatibleConfig && !ech::usable_list(b@),
                    None => e is Rustls,
                },
            },
            match (self.ech, *list) {
                (Some(_), Some(b)) => self.needs_tls_config() && !ech::usable_list(b@) ==> r is Err,
                _ => true,
            },
    {
        if !self.endpoint.is_tls() || (self.ech.is_none() && self.enable_sni) {
            return Ok(None);
        }
        let mode = match (&self.ech, list) {
            (Some(_), Some(bytes)) => ResolverEch::Config(bytes.as_slice()),
            (Some(_), None) => ResolverEch::Grease,
            (None, _) => ResolverEch::Disabled,
        };
        match ech::resolver_client_config(mode, self.enable_sni, roots) {
            Ok(c) => Ok(Some(c)),
            Err(e) => Err(e),
        }
    }
}

/// The first of the addresses found for a host.
pub fn first_addr(host: &str, addrs: &Vec<SocketAddr>) -> (r: Result<SocketAddr, String>)
    ensures
        if addrs@.len() > 0 {
            r matches Ok(a) && a == addrs@[0]
        } else {
            r matches Err(m) && m@ == "no address for "@ + host@
        },
{
    if addrs.len() > 0 {
        Ok(addrs[0])
    } else {
        let mut m = "no address for ".to_owned();
        push_text(&mut m, host);
        Err(m)
    }
}

// ---------------------------------------------------------------------------
// The live resolver
// ---------------------------------------------------------------------------

/// Why a resolver is built anew.
#[derive(Debug, Clone, Copy, PartialEq, Eq, Structural)]
pub enum RebuildCause {
    /// The server rejected the ECH offer.
    Rejected,
    /// It was time to look for a new configuration.
    Rotation,
}

impl RebuildCause {
    /// The cause as a word.
    pub fn as_str(self) -> (r: &'static str)
        ensures
            r@ == (match self {
                RebuildCause::Rejected => "ech-rejected"@,
                RebuildCause::Rotation => "ech-rotation"@,
            }),
    {
        match self {
            RebuildCause::Rejected => "ech-rejected",
            RebuildCause::Rotation => "ech-rotation",
        }
    }
}

/// A freshly built resolver and the ECHConfigList that it was built with.
#[derive(Debug)]
pub struct Built<R> {
    pub resolver: R,
    pub ech_bytes: Option<Vec<u8>>,
}

/// A live resolver that can be replaced.
#[derive(Debug)]
pub struct DnsResolver<R> {
    pub label: String,
    pub inner: R,
    /// What to build it from; nothing for one that was written out.
    pub plan: Option<ResolverPlan>,
    /// How often it has been replaced.
    pub generation: u64,
    pub ech_bytes: Option<Vec<u8>>,
}

/// Whether a rebuilt resolver takes over. One that was looked for in vain, with the
/// list that is in use already, does not.
pub open spec fn takes_over(cause: RebuildCause, current: Option<Seq<u8>>, built: Option<Seq<u8>>) -> bool {
    cause == RebuildCause::Rejected || built != current
}

impl<R> DnsResolver<R> {
    /// A resolver that has just been built.
    pub fn new(label: String, inner: R, plan: Option<ResolverPlan>, ech_bytes: Option<Vec<u8>>) -> (r: Self)
        ensures
            r.label == label,
            r.inner == inner,
            r.plan == plan,
            r.generation == 0,
            r.ech_bytes == ech_bytes,
    {
        DnsResolver { label, inner, plan, generation: 0, ech_bytes }
    }

    /// The declared name, or the spec that was written out.
    pub fn label(&self) -> (r: &str)
        ensures
            r@ == self.label@,
    {
        self.label.as_str()
    }

    /// How often the resolver has been replaced.
    pub fn generation(&self) -> (r: u64)
        ensures
            r == self.generation,
    {
        self.generation
    }

    /// The resolver as it is now.
    pub fn snapshot(&self) -> (r: &R)
        ensures
            *r == self.inner,
    {
        &self.inner
    }

    /// How many rejections one query survives.
    pub open spec fn retries(&self) -> u32 {
        match self.plan {
            Some(p) => p.retries(),
            None => 0,
        }
    }

    /// The number of the next attempt of a query, if it is made again: only where
    /// the server rejected the ECH offer and the plan allows one more.
    pub fn next_attempt(&self, attempt: u32, rejected: bool) -> (r: Option<u32>)
        ensures
            match r {
                Some(n) => rejected && n == attempt + 1 && n <= self.retries(),
                None => !rejected || attempt >= self.retries(),
            },
    {
        let max = match &self.plan {
            Some(p) => p.max_retries(),
            None => 0,
        };
        if rejected && attempt < max {
            Some(attempt + 1)
        } else {
            None
        }
    }

    /// Whether to build anew for a query or a timer that saw a generation: only
    /// while that is still the current one.
    pub fn wants_rebuild(&self, seen: u64) -> (r: bool)
        ensures
            r == self.wants(seen),
    {
        self.plan.is_some() && self.generation == seen
    }

    /// Take a rebuilt resolver, or drop it. A failed build changes nothing.
    pub fn on_built(&mut self, cause: RebuildCause, built: Result<Built<R>, String>) -> (r: bool)
        ensures
            final(self).label == old(self).label,
            final(self).plan == old(self).plan,
            match built {
                Ok(b) => r == takes_over(cause, opt_bytes(old(self).ech_bytes), opt_bytes(b.ech_bytes)),
                Err(_) => !r,
            },
            if r {
                &&& built matches Ok(b)
                &&& final(self).inner == b.resolver
                &&& final(self).ech_bytes == b.ech_bytes
                &&& final(self).generation == old(self).generation.wrapping_add(1)
            } else {
                *final(self) == *old(self)
            },
    {
        match built {
            Err(_) => false,
            Ok(b) => {
                let same = match (&b.ech_bytes, &self.ech_bytes) {
                    (Some(x), Some(y)) => octets::same(x.as_slice(), y.as_slice()),
                    (None, None) => true,
                    _ => false,
                };
                let rotation = match cause {
                    RebuildCause::Rotation => true,
                    RebuildCause::Rejected => false,
                };
                if rotation && same {
                    return false;
                }
                self.inner = b.resolver;
                self.ech_bytes = b.ech_bytes;
                self.generation = self.generation.wrapping_add(1);
                true
            },
        }
    }
}

/// How often to look for a new configuration: as configured, and at most every five
/// seconds.
pub fn refresh_period(refresh: Duration) -> (r: Duration)
    ensures
        r.nanos == if refresh.nanos > ech::MIN_REFRESH_NANOS {
            refresh.nanos
        } else {
            ech::MIN_REFRESH_NANOS
        },
{
    if refresh.nanos > ech::MIN_REFRESH_NANOS {
        refresh
    } else {
        Duration { nanos: ech::MIN_REFRESH_NANOS }
    }
}

// ---------------------------------------------------------------------------
// Laws
// ---------------------------------------------------------------------------

/// `upstream` moves where a resolver is dialed and nothing else, `override_sni` the
/// name that it presents and nothing else: of two plans for one endpoint, equal
/// values of the one give equal targets, equal values of the other equal names.
pub proof fn law_dial_and_name_move_apart(
    p1: ResolverPlan,
    eff1: EffectiveResolver,
    p2: ResolverPlan,
    eff2: EffectiveResolver,
    e: EndpointView,
)
    requires
        is_plan_of(p1, eff1, e),
        is_plan_of(p2, eff2, e),
    ensures
        text::opt_text(eff1.upstream) == text::opt_text(eff2.upstream) ==> p1.dial_host@ == p2.dial_host@
            && p1.dial_port == p2.dial_port,
        eff1.sni_policy@ == eff2.sni_policy@ ==> text::opt_text(p1.server_name) == text::opt_text(p2.server_name)
            && p1.enable_sni == p2.enable_sni,
{
}

/// A host in `upstream` is where a resolver is dialed, whatever its endpoint says:
/// only the system's own resolver is not dialed at all.
pub proof fn law_upstream_host_is_dialed(
    plan: ResolverPlan,
    eff: EffectiveResolver,
    e: EndpointView,
    bootstrap: Seq<char>,
    host: Seq<char>,
    port: nat,
)
    requires
        is_plan_of(plan, eff, e),
        upstream::resolved_upstream(text::opt_text(eff.upstream), e.port() as u16) == Some((Some(host), port)),
        e !is System,
    ensures
        dial_of(plan, bootstrap) matches DialView::Resolve(dialed, _) && dialed == host,
        plan.dial_port == port,
{
    upstream::lemma_host_is_not_empty(text::opt_text(eff.upstream), e.port() as u16);
}

/// A resolver that presents no name still checks the certificate against one: the
/// same that it would have presented.
pub proof fn law_omitted_name_is_still_checked(endpoint: EndpointView)
    ensures
        tls_name(endpoint, SniView::Omit) == tls_name(endpoint, SniView::Reflect),
        endpoint.is_tls() ==> tls_name(endpoint, SniView::Omit) is Some,
{
}

impl<R> DnsResolver<R> {
    /// Whether a query or a timer that saw a generation asks for a rebuild.
    pub open spec fn wants(&self, seen: u64) -> bool {
        self.plan is Some && self.generation == seen
    }

    /// However many queries see one generation rejected, one of them replaces the
    /// resolver: once it has, none of the others still wants to.
    pub proof fn law_one_rebuild_per_generation(&self, after: &Self, seen: u64)
        requires
            self.wants(seen),
            after.generation == self.generation.wrapping_add(1),
        ensures
            !after.wants(seen),
    {
    }
}

/// A reference never parses as an endpoint, so the two cannot be confused.
pub proof fn law_reference_is_no_endpoint(s: Seq<char>)
    requires
        references::is_ref(s),
    ensures
        endpoint_of(text::trim(s)) is Err,
{
    let t = text::trim(s);
    net::lemma_foreign_is_no_address(t);
    reveal_strlit("https://");
    reveal_strlit("tls://");
    reveal_strlit("udp://");
    reveal_strlit("tcp://");
    reveal_strlit("system");
    assert(text::lowered(t)[0] == text::lower('@'));
    assert("system"@[0] == 's');
    assert("https://"@[0] == 'h');
    assert("tls://"@[0] == 't');
    assert("udp://"@[0] == 'u');
    assert("tcp://"@[0] == 't');
}

/// An endpoint that is written out is read as it says: over HTTPS at port 443 and
/// `/dns-query`, or over TLS at port 853, unless a port or a path says otherwise.
#[verifier::rlimit(60)]
pub proof fn law_written_endpoint_is_read(host: Seq<char>, port: u16, path: Seq<char>)
    requires
        host.len() > 0,
        !host.contains('/'),
        !host.contains(':'),
        path.len() == 0 || path[0] == '/',
    ensures
        ({
            let at = seq![':'] + text::dec(port as nat);
            let query = if path.len() == 0 {
                "/dns-query"@
            } else {
                path
            };
            &&& endpoint_of("https://"@ + (host + path)) == Ok::<EndpointView, Seq<char>>(
                EndpointView::Doh { host, port: 443, path: query },
            )
            &&& endpoint_of("https://"@ + (host + at + path)) == Ok::<EndpointView, Seq<char>>(
                EndpointView::Doh { host, port: port as nat, path: query },
            )
            &&& endpoint_of("tls://"@ + (host + path)) == Ok::<EndpointView, Seq<char>>(
                EndpointView::Dot { host, port: 853 },
            )
            &&& endpoint_of("tls://"@ + (host + at + path)) == Ok::<EndpointView, Seq<char>>(
                EndpointView::Dot { host, port: port as nat },
            )
        }),
        endpoint_of("https://"@ + path) is Err,
        endpoint_of("tls://"@ + path) is Err,
{
    let at = seq![':'] + text::dec(port as nat);
    assert(host + at + path =~= host + seq![':'] + text::dec(port as nat) + path);
    dns::lemma_authority(host, port, path);
    dns::lemma_https(host + path);
    dns::lemma_https(host + at + path);
    dns::lemma_tls(host + path);
    dns::lemma_tls(host + at + path);
    let none = Seq::<char>::empty();
    dns::lemma_authority(none, port, path);
    assert(none + path =~= path);
    dns::lemma_https(path);
    dns::lemma_tls(path);
}

/// A plain endpoint behind a scheme may be a name, at port 53 or another; without one it
/// has to be an address.
#[verifier::rlimit(60)]
pub proof fn law_plain_name_needs_a_scheme(name: Seq<char>, port: u16)
    requires
        dns::server_addr(name) is None,
        dns::server_addr(name + seq![':'] + text::dec(port as nat)) is None,
        !name.contains(':'),
    ensures
        endpoint_of("udp://"@ + name) == Ok::<EndpointView, Seq<char>>(EndpointView::Plain { target: name, port: 53 }),
        endpoint_of("tcp://"@ + name) == Ok::<EndpointView, Seq<char>>(EndpointView::Plain { target: name, port: 53 }),
        endpoint_of("udp://"@ + (name + seq![':'] + text::dec(port as nat))) == Ok::<EndpointView, Seq<char>>(
            EndpointView::Plain { target: name, port: port as nat },
        ),
        plain_of(name, name, false) is Err,
{
    let full = name + seq![':'] + text::dec(port as nat);
    let udp = "udp://"@ + name;
    let tcp = "tcp://"@ + name;
    let with_port = "udp://"@ + full;
    dns::lemma_udp(name);
    dns::lemma_tcp(name);
    dns::lemma_udp(full);
    lemma_plain_name(udp, name);
    lemma_plain_name(tcp, name);
    lemma_plain_name_and_port(with_port, name, port);
}

proof fn lemma_plain_name(s: Seq<char>, name: Seq<char>)
    requires
        dns::server_addr(name) is None,
        !name.contains(':'),
    ensures
        plain_of(s, name, true) == Ok::<EndpointView, Seq<char>>(EndpointView::Plain { target: name, port: 53 }),
{
    text::lemma_last_char(name, ':', name.len() as int);
}

proof fn lemma_plain_name_and_port(s: Seq<char>, name: Seq<char>, port: u16)
    requires
        dns::server_addr(name + seq![':'] + text::dec(port as nat)) is None,
    ensures
        plain_of(s, name + seq![':'] + text::dec(port as nat), true) == Ok::<EndpointView, Seq<char>>(
            EndpointView::Plain { target: name, port: port as nat },
        ),
{
    let d = text::dec(port as nat);
    let full = name + seq![':'] + d;
    text::lemma_dec_digits(port as nat);
    text::lemma_last_char(full, ':', full.len() as int);
    let colon = text::last_char(full, ':', full.len() as int);
    assert(full[name.len() as int] == ':');
    if colon > name.len() {
        assert(full[colon] == d[colon - name.len() - 1]);
        assert(text::is_digit(d[colon - name.len() - 1]));
    }
    assert(full.subrange(colon + 1, full.len() as int) =~= d);
    assert(full.subrange(0, colon) =~= name);
}

/// A plain endpoint that is an address is that address, at its own port or at port 53.
pub proof fn law_plain_address_is_read(addr: Seq<char>, a: net::SocketAddr)
    requires
        dns::server_addr(addr) == Some(a),
    ensures
        endpoint_of("udp://"@ + addr) == Ok::<EndpointView, Seq<char>>(
            EndpointView::Plain { target: net::ip_text(a.ip), port: a.port as nat },
        ),
        endpoint_of("tcp://"@ + addr) == endpoint_of("udp://"@ + addr),
{
    dns::lemma_udp(addr);
    dns::lemma_tcp(addr);
}

/// A resolver is helped by the one that is named behind an `@`, by the one that is written
/// out, or by the system's.
pub proof fn law_helper_is_what_is_written(name: Seq<char>, s: Seq<char>)
    requires
        name.len() > 0,
        !text::is_space(name.last()),
        s.len() > 0,
        s[0] != '@',
        !text::is_space(s[0]),
        !text::is_space(s.last()),
    ensures
        helper_of(None) == HelperView::System,
        helper_of(Some(seq!['@'] + name)) == HelperView::Named(name),
        helper_of(Some(s)) == HelperView::Inline(s),
{
    let r = seq!['@'] + name;
    assert(r[0] == '@' && r.last() == name.last());
    text::lemma_trimmed_already(r);
    text::lemma_trimmed_already(s);
    assert(r.drop_first() =~= name);
}

/// Over TLS a resolver is spoken to under the name that it was given, else under its own
/// host's; in the clear there is no name.
pub proof fn law_resolver_name_is_the_given_or_its_own(host: Seq<char>, port: nat, path: Seq<char>, name: Seq<char>)
    ensures
        tls_name(EndpointView::Doh { host, port, path }, SniView::Fixed(name)) == Some(name),
        tls_name(EndpointView::Dot { host, port }, SniView::Fixed(name)) == Some(name),
        tls_name(EndpointView::Doh { host, port, path }, SniView::Reflect) == Some(host),
        tls_name(EndpointView::Dot { host, port }, SniView::Reflect) == Some(host),
        tls_name(EndpointView::Plain { target: host, port }, SniView::Fixed(name)) is None,
        tls_name(EndpointView::System, SniView::Fixed(name)) is None,
{
}

/// Without an `upstream` a resolver is dialed at its own host and port, which is resolved
/// by its bootstrap unless it is an address; the system's is not dialed.
pub proof fn law_resolver_is_dialed_at_its_endpoint(
    plan: ResolverPlan,
    eff: EffectiveResolver,
    e: EndpointView,
    bootstrap: Seq<char>,
)
    requires
        is_plan_of(plan, eff, e),
        eff.upstream is None,
        e.port() <= 65535,
    ensures
        plan.dial_port as nat == e.port(),
        e is System ==> dial_of(plan, bootstrap) is Nowhere,
        e matches EndpointView::Doh { host, port, path } ==> plan.dial_host@ == host && plan.dial_port == port && (
        dial_of(plan, bootstrap) matches DialView::Resolve(h, _) && h == host),
        e matches EndpointView::Dot { host, port } ==> plan.dial_host@ == host && plan.dial_port == port && (dial_of(
            plan,
            bootstrap,
        ) matches DialView::Resolve(h, _) && h == host),
        e matches EndpointView::Plain { target, port } ==> plan.dial_port == port && (net::ip(target) matches Some(ip)
            ==> dial_of(plan, bootstrap) == DialView::At(ip)),
        e matches EndpointView::Plain { target, port } ==> (net::ip(target) is None ==> (dial_of(
            plan,
            bootstrap,
        ) matches DialView::Resolve(h, _) && h == target)),
{
}

/// A plan says of a resolver what its settings say.
pub proof fn law_plan_follows_the_settings(plan: ResolverPlan, eff: EffectiveResolver, e: EndpointView)
    requires
        is_plan_of(plan, eff, e),
    ensures
        plan.label@ == eff.name@,
        plan.endpoint@ == e,
        plan.enable_sni <==> eff.sni_policy@ != SniView::Omit,
        plan.family == eff.address_family,
        plan.nat64 == eff.nat64_prefix,
        plan.connect_timeout == eff.connect_timeout,
        eff.bootstrap is None ==> plan.bootstrap@ == HelperView::System,
        plan.ech is Some <==> eff.ech is Some,
        plan.ech matches Some(p) ==> {
            &&& eff.ech == Some(p.settings)
            &&& p.require_ech == eff.require_ech
            &&& p.refresh == eff.ech_refresh
            &&& eff.ech_resolver is None ==> p.resolver@ == HelperView::System
            &&& plan.retries() == p.settings.max_retries
        },
        plan.ech is None ==> plan.retries() == 0,
{
}

/// A resolver's own config is looked up under the configured name, else under the one it
/// presents, at the port where it is dialed; it has a TLS configuration of its own where
/// it offers ECH or leaves its name out, and only over TLS.
pub proof fn law_resolver_offers_its_own_config(plan: ResolverPlan, settings: EffectiveEch, list: Seq<u8>)
    ensures
        settings.ech_domain matches Some(d) ==> plan.ech_name(settings) == Some(ech::record_name(d@, plan.dial_port)),
        settings.ech_domain is None ==> (plan.server_name matches Some(n) ==> plan.ech_name(settings) == Some(
            ech::record_name(n@, plan.dial_port),
        )),
        settings.ech_domain is None && plan.server_name is None ==> plan.ech_name(settings) is None,
        plan.needs_tls_config() <==> (plan.endpoint@ is Doh || plan.endpoint@ is Dot) && (plan.ech is Some
            || !plan.enable_sni),
        plan.ech is Some ==> offers(plan, Some(list), Some(ech::ModeView::Real(list))) && !offers(plan, Some(list), None)
            && !offers(plan, None, None),
        plan.ech is None ==> offers(plan, Some(list), None) && !offers(plan, None, Some(ech::ModeView::Real(list))),
{
}

/// A rebuilt resolver takes over after a rejection, and after any other cause where its
/// config is another one.
pub proof fn law_rebuilt_resolver_takes_over(cause: RebuildCause, current: Option<Seq<u8>>, built: Option<Seq<u8>>)
    ensures
        takes_over(RebuildCause::Rejected, current, built),
        built != current ==> takes_over(cause, current, built),
        cause != RebuildCause::Rejected ==> !takes_over(cause, current, current),
{
}

} // verus!
