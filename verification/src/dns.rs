//! Resolver specifications, and which addresses an upstream is dialed at.
//!
//! A resolver spec is a short text: `system`, `https://host[:port]/path`,
//! `tls://host[:port]`, `udp://ip[:port]`, `tcp://ip[:port]`, or a bare
//! `ip[:port]`.

use crate::config::AddressFamily;
use crate::net;
use crate::net::{IpAddr, SocketAddr};
use crate::text;
use vstd::prelude::*;
use vstd::slice::slice_subrange;

verus! {

// ---------------------------------------------------------------------------
// Specs
// ---------------------------------------------------------------------------

/// Whether a text means the system's own resolver: `system`, or nothing.
pub open spec fn means_system(s: Seq<char>) -> bool {
    s.len() == 0 || text::lowered(s) == "system"@
}

/// Whether a text means the system's own resolver.
pub fn is_system(s: &[char]) -> (r: bool)
    ensures
        r == means_system(s@),
{
    if s.len() == 0 {
        return true;
    }
    let low = text::lowered_chars(s);
    let word = text::chars_of("system");
    text::same_chars(low.as_slice(), word.as_slice())
}

/// The host, the port and the path of `host[:port][/path]`. A port that does not
/// fit is none.
pub open spec fn authority(s: Seq<char>) -> (Seq<char>, Option<nat>, Seq<char>) {
    let slash = text::first_char(s, '/');
    let name = s.subrange(0, slash);
    let path = s.subrange(slash, s.len() as int);
    let colon = text::last_char(name, ':', name.len() as int);
    let digits = name.subrange(colon + 1, name.len() as int);
    if colon >= 0 && digits.len() > 0 && text::all_digits(digits) {
        (name.subrange(0, colon), text::number_up_to(digits, 65535), path)
    } else {
        (name, None, path)
    }
}

/// Split `host[:port][/path]`.
pub fn split_authority_path(s: &[char]) -> (r: (String, Option<u16>, String))
    ensures
        authority(s@) == (
            r.0@,
            match r.1 {
                Some(p) => Some(p as nat),
                None => None,
            },
            r.2@,
        ),
{
    let slash = text::find_char(s, '/', 0);
    let name = slice_subrange(s, 0, slash);
    let path = text::string_of(slice_subrange(s, slash, s.len()));
    match text::rfind_char(name, ':') {
        Some(colon) => {
            let digits = slice_subrange(name, colon + 1, name.len());
            if digits.len() > 0 && text::only_digits(digits) {
                let port = match text::parse_number(digits, 65535) {
                    Some(p) => Some(p as u16),
                    None => None,
                };
                return (text::string_of(slice_subrange(name, 0, colon)), port, path);
            }
        },
        None => {},
    }
    (text::string_of(name), None, path)
}

/// The address that `ip` or `ip:port` gives, at the usual port of a name server
/// unless it says otherwise.
pub open spec fn server_addr(s: Seq<char>) -> Option<SocketAddr> {
    match net::socket_addr(s) {
        Some(a) => Some(a),
        None => match net::ip(s) {
            Some(ip) => Some(net::socket(ip, 53)),
            None => None,
        },
    }
}

/// Parse `ip` or `ip:port`.
pub fn parse_ip_addr(s: &[char]) -> (r: Option<SocketAddr>)
    ensures
        r == server_addr(s@),
{
    match net::parse_socket_addr(s) {
        Some(a) => Some(a),
        None => match net::parse_ip(s) {
            Some(ip) => Some(SocketAddr::new(ip, 53)),
            None => None,
        },
    }
}

/// A text behind a prefix, if it has it.
pub open spec fn behind(s: Seq<char>, prefix: Seq<char>) -> Option<Seq<char>> {
    if prefix.is_prefix_of(s) {
        Some(s.subrange(prefix.len() as int, s.len() as int))
    } else {
        None
    }
}

/// What stands behind a prefix, if it is there.
pub fn strip_prefix<'a>(s: &'a [char], prefix: &str) -> (r: Option<&'a [char]>)
    ensures
        match r {
            Some(rest) => behind(s@, prefix@) == Some(rest@),
            None => behind(s@, prefix@) is None,
        },
{
    let head = text::chars_of(prefix);
    if text::starts_with(s, head.as_slice()) {
        Some(slice_subrange(s, head.len(), s.len()))
    } else {
        None
    }
}

/// A resolver specification with its host resolved.
#[derive(Debug, Clone, PartialEq, Eq)]
pub enum ResolverSpec {
    /// The system's own resolver.
    System,
    /// DNS over HTTPS: where, at which port, under which name, and at which path.
    Doh { ip: IpAddr, port: u16, server_name: String, path: String },
    /// DNS over TLS.
    Dot { ip: IpAddr, port: u16, server_name: String },
    /// Plain DNS.
    Plain { addr: SocketAddr },
}

/// What a [`ResolverSpec`] says.
pub enum SpecView {
    System,
    Doh { ip: IpAddr, port: nat, server_name: Seq<char>, path: Seq<char> },
    Dot { ip: IpAddr, port: nat, server_name: Seq<char> },
    Plain { addr: SocketAddr },
}

impl View for ResolverSpec {
    type V = SpecView;

    open spec fn view(&self) -> SpecView {
        match self {
            ResolverSpec::System => SpecView::System,
            ResolverSpec::Doh { ip, port, server_name, path } => SpecView::Doh {
                ip: *ip,
                port: *port as nat,
                server_name: server_name@,
                path: path@,
            },
            ResolverSpec::Dot { ip, port, server_name } => SpecView::Dot {
                ip: *ip,
                port: *port as nat,
                server_name: server_name@,
            },
            ResolverSpec::Plain { addr } => SpecView::Plain { addr: *addr },
        }
    }
}

/// The address of a host: itself, if it is one, and otherwise what it has been
/// resolved to.
pub open spec fn host_ip(host: Seq<char>, resolved: Option<IpAddr>) -> Option<IpAddr> {
    match net::ip(host) {
        Some(ip) => Some(ip),
        None => resolved,
    }
}

/// The path of a query: the usual one unless the spec says otherwise.
pub open spec fn query_path(path: Seq<char>) -> Seq<char> {
    if path.len() == 0 {
        "/dns-query"@
    } else {
        path
    }
}

/// The given port, or the usual one.
pub open spec fn port_or(port: Option<nat>, usual: nat) -> nat {
    match port {
        Some(p) => p,
        None => usual,
    }
}

/// What a trimmed spec means, given the address that its host has been resolved
/// to.
pub open spec fn spec_of(s: Seq<char>, resolved: Option<IpAddr>) -> Result<SpecView, Seq<char>> {
    if means_system(s) {
        Ok(SpecView::System)
    } else if behind(s, "https://"@) is Some {
        let (host, port, path) = authority(behind(s, "https://"@)->0);
        match host_ip(host, resolved) {
            Some(ip) => Ok(
                SpecView::Doh { ip, port: port_or(port, 443), server_name: host, path: query_path(path) },
            ),
            None => Err("resolving DoH host "@ + host),
        }
    } else if behind(s, "tls://"@) is Some {
        let (host, port, path) = authority(behind(s, "tls://"@)->0);
        match host_ip(host, resolved) {
            Some(ip) => Ok(SpecView::Dot { ip, port: port_or(port, 853), server_name: host }),
            None => Err("resolving DoT host "@ + host),
        }
    } else {
        let body = if behind(s, "udp://"@) is Some {
            behind(s, "udp://"@)->0
        } else if behind(s, "tcp://"@) is Some {
            behind(s, "tcp://"@)->0
        } else {
            s
        };
        match server_addr(body) {
            Some(addr) => Ok(SpecView::Plain { addr }),
            None => Err("resolver spec "@ + text::quoted(s) + " is not a valid ip[:port]"@),
        }
    }
}

/// The host and port of a trimmed spec that must be resolved first.
pub open spec fn bootstrap_of(s: Seq<char>) -> Option<(Seq<char>, nat)> {
    if means_system(s) {
        None
    } else if behind(s, "https://"@) is Some {
        let (host, port, path) = authority(behind(s, "https://"@)->0);
        if net::ip(host) is Some {
            None
        } else {
            Some((host, port_or(port, 443)))
        }
    } else if behind(s, "tls://"@) is Some {
        let (host, port, path) = authority(behind(s, "tls://"@)->0);
        if net::ip(host) is Some {
            None
        } else {
            Some((host, port_or(port, 853)))
        }
    } else {
        None
    }
}

fn literal(host: &str) -> (r: Option<IpAddr>)
    ensures
        r == net::ip(host@),
{
    let cs = text::chars_of(host);
    net::parse_ip(cs.as_slice())
}

impl ResolverSpec {
    /// The host and port that must be resolved before a spec can be read.
    pub fn bootstrap(s: &str) -> (r: Option<(String, u16)>)
        ensures
            match r {
                Some(v) => bootstrap_of(text::trim(s@)) == Some((v.0@, v.1 as nat)),
                None => bootstrap_of(text::trim(s@)) is None,
            },
    {
        let t = text::trimmed_chars(s);
        if is_system(t.as_slice()) {
            return None;
        }
        let (rest, default): (&[char], u16) = match strip_prefix(t.as_slice(), "https://") {
            Some(rest) => (rest, 443),
            None => match strip_prefix(t.as_slice(), "tls://") {
                Some(rest) => (rest, 853),
                None => return None,
            },
        };
        let (host, port, _) = split_authority_path(rest);
        if literal(host.as_str()).is_some() {
            return None;
        }
        let port = match port {
            Some(p) => p,
            None => default,
        };
        Some((host, port))
    }

    /// Read a spec, given the address that its host has been resolved to. The
    /// empty spec is the system's resolver too.
    pub fn parse(s: &str, resolved: Option<IpAddr>) -> (r: Result<Self, String>)
        ensures
            match r {
                Ok(spec) => spec_of(text::trim(s@), resolved) == Ok::<SpecView, Seq<char>>(spec@),
                Err(m) => spec_of(text::trim(s@), resolved) == Err::<SpecView, Seq<char>>(m@),
            },
    {
        let t = text::trimmed_chars(s);
        if is_system(t.as_slice()) {
            return Ok(ResolverSpec::System);
        }
        match strip_prefix(t.as_slice(), "https://") {
            Some(rest) => {
                let (host, port, path) = split_authority_path(rest);
                let ip = match literal(host.as_str()) {
                    Some(ip) => Some(ip),
                    None => resolved,
                };
                return match ip {
                    Some(ip) => {
                        let path = if path.as_str().unicode_len() == 0 {
                            "/dns-query".to_owned()
                        } else {
                            path
                        };
                        let port = match port {
                            Some(p) => p,
                            None => 443,
                        };
                        Ok(ResolverSpec::Doh { ip, port, server_name: host, path })
                    },
                    None => {
                        let mut m = "resolving DoH host ".to_owned();
                        text::push_text(&mut m, host.as_str());
                        Err(m)
                    },
                };
            },
            None => {},
        }
        match strip_prefix(t.as_slice(), "tls://") {
            Some(rest) => {
                let (host, port, _) = split_authority_path(rest);
                let ip = match literal(host.as_str()) {
                    Some(ip) => Some(ip),
                    None => resolved,
                };
                return match ip {
                    Some(ip) => {
                        let port = match port {
                            Some(p) => p,
                            None => 853,
                        };
                        Ok(ResolverSpec::Dot { ip, port, server_name: host })
                    },
                    None => {
                        let mut m = "resolving DoT host ".to_owned();
                        text::push_text(&mut m, host.as_str());
                        Err(m)
                    },
                };
            },
            None => {},
        }
        let body = match strip_prefix(t.as_slice(), "udp://") {
            Some(rest) => rest,
            None => match strip_prefix(t.as_slice(), "tcp://") {
                Some(rest) => rest,
                None => t.as_slice(),
            },
        };
        match parse_ip_addr(body) {
            Some(addr) => Ok(ResolverSpec::Plain { addr }),
            None => {
                let shown = text::string_of(t.as_slice());
                Err(
                    text::concat3(
                        "resolver spec ",
                        text::quote(shown.as_str()).as_str(),
                        " is not a valid ip[:port]",
                    ),
                )
            },
        }
    }

    /// Whether the local hosts file is consulted. An explicitly configured server
    /// answers by itself; only the system's resolver honours local overrides.
    pub fn uses_hosts_file(&self) -> (r: bool)
        ensures
            r == (self@ is System),
    {
        match self {
            ResolverSpec::System => true,
            _ => false,
        }
    }
}

/// Which records are asked for, and in which order.
#[derive(Debug, Clone, Copy, PartialEq, Eq, Structural)]
pub enum Strategy {
    Ipv6thenIpv4,
    Ipv4Only,
    Ipv6Only,
}

/// Which records an address family asks for.
pub fn strategy_for(family: AddressFamily) -> (r: Strategy)
    ensures
        r == (match family {
            AddressFamily::Dual => Strategy::Ipv6thenIpv4,
            AddressFamily::Ipv4 => Strategy::Ipv4Only,
            AddressFamily::Ipv6 => Strategy::Ipv6Only,
        }),
{
    match family {
        AddressFamily::Dual => Strategy::Ipv6thenIpv4,
        AddressFamily::Ipv4 => Strategy::Ipv4Only,
        AddressFamily::Ipv6 => Strategy::Ipv6Only,
    }
}

// ---------------------------------------------------------------------------
// Upstream addresses
// ---------------------------------------------------------------------------

/// Where to dial an upstream: one address, or two from different families to
/// race. A projected address is no second path, as it takes the same stack.
#[derive(Debug, Clone, Copy, PartialEq, Eq, Structural)]
pub struct ResolvedAddrs {
    /// The address to dial first: IPv6 whenever both families have answered.
    pub primary: SocketAddr,
    /// The address of the other family.
    pub fallback: Option<SocketAddr>,
}

impl ResolvedAddrs {
    /// One address.
    pub fn single(addr: SocketAddr) -> (r: Self)
        ensures
            r == single_of(addr),
    {
        ResolvedAddrs { primary: addr, fallback: None }
    }

    /// Two paths to the same upstream, IPv6 first.
    pub fn dual(v6: SocketAddr, v4: SocketAddr) -> (r: Self)
        ensures
            r == dual_of(v6, v4),
    {
        ResolvedAddrs { primary: v6, fallback: Some(v4) }
    }
}

/// One address.
pub open spec fn single_of(addr: SocketAddr) -> ResolvedAddrs {
    ResolvedAddrs { primary: addr, fallback: None }
}

/// Two paths to the same upstream.
pub open spec fn dual_of(v6: SocketAddr, v4: SocketAddr) -> ResolvedAddrs {
    ResolvedAddrs { primary: v6, fallback: Some(v4) }
}

/// What has to be looked up to resolve an upstream.
#[derive(Debug, Clone, Copy, PartialEq, Eq, Structural)]
pub enum Lookup {
    /// Nothing: the host is an address.
    Literal(IpAddr),
    /// AAAA records only.
    V6,
    /// A records only.
    V4,
    /// AAAA records and, only where there are none, A records.
    V6ThenV4,
    /// Both, at the same time.
    Both,
}

/// What has to be looked up. A prefix for projections means a host without IPv4,
/// so that an A record is of no use while there is an AAAA record.
pub open spec fn lookup_of(host: Seq<char>, family: AddressFamily, nat64: bool) -> Lookup {
    match net::ip(host) {
        Some(ip) => Lookup::Literal(ip),
        None => match family {
            AddressFamily::Ipv6 => Lookup::V6,
            AddressFamily::Ipv4 => Lookup::V4,
            AddressFamily::Dual => if nat64 {
                Lookup::V6ThenV4
            } else {
                Lookup::Both
            },
        },
    }
}

/// Decide what has to be looked up.
pub fn plan_lookup(host: &str, family: AddressFamily, nat64: bool) -> (r: Lookup)
    ensures
        r == lookup_of(host@, family, nat64),
{
    match literal(host) {
        Some(ip) => Lookup::Literal(ip),
        None => match family {
            AddressFamily::Ipv6 => Lookup::V6,
            AddressFamily::Ipv4 => Lookup::V4,
            AddressFamily::Dual => if nat64 {
                Lookup::V6ThenV4
            } else {
                Lookup::Both
            },
        },
    }
}

/// An IPv4 address as it is dialed: projected, if there is a projection of it.
pub open spec fn v4_target(v4: u32, projected: Option<u128>, port: u16) -> SocketAddr {
    match projected {
        Some(v6) => net::socket(IpAddr::V6(v6), port),
        None => net::socket(IpAddr::V4(v4), port),
    }
}

/// An IPv4 address as it is dialed, given its projection.
pub fn nat64_or_v4(v4: u32, port: u16, projected: Option<u128>) -> (r: SocketAddr)
    ensures
        r == v4_target(v4, projected, port),
{
    match projected {
        Some(v6) => SocketAddr::new(IpAddr::V6(v6), port),
        None => SocketAddr::new(IpAddr::V4(v4), port),
    }
}

/// Where a host is dialed that is an address itself, given its projection. Where
/// IPv6 is asked for, nothing is projected.
pub open spec fn literal_target(ip: IpAddr, port: u16, family: AddressFamily, projected: Option<u128>) -> SocketAddr {
    match ip {
        IpAddr::V4(v4) => if family != AddressFamily::Ipv6 {
            v4_target(v4, projected, port)
        } else {
            net::socket(ip, port)
        },
        IpAddr::V6(_) => net::socket(ip, port),
    }
}

/// Resolve a host that is an address itself.
pub fn resolve_literal(ip: IpAddr, port: u16, family: AddressFamily, projected: Option<u128>) -> (r: ResolvedAddrs)
    ensures
        r == single_of(literal_target(ip, port, family, projected)),
{
    let addr = match ip {
        IpAddr::V4(v4) => match family {
            AddressFamily::Ipv6 => SocketAddr::new(ip, port),
            _ => nat64_or_v4(v4, port, projected),
        },
        IpAddr::V6(_) => SocketAddr::new(ip, port),
    };
    ResolvedAddrs::single(addr)
}

/// That neither family has answered, with both reasons.
pub open spec fn neither_text(host: Seq<char>, v6: Seq<char>, v4: Seq<char>) -> Seq<char> {
    "resolving "@ + host + ": AAAA also failed: "@ + v6 + ": "@ + v4
}

/// Report both reasons: the one for AAAA records alone is not why a lookup of both
/// has failed.
pub fn neither_family_resolved(host: &str, v6: &str, v4: &str) -> (r: String)
    ensures
        r@ == neither_text(host@, v6@, v4@),
{
    let mut m = text::concat5("resolving ", host, ": AAAA also failed: ", v6, ": ");
    text::push_text(&mut m, v4);
    m
}

/// What has come of the lookups of an upstream: an IPv6 address, and an IPv4
/// address with its projection, or why not. What was not looked up is absent.
pub struct Answers {
    pub v6: Option<Result<u128, String>>,
    pub v4: Option<Result<(u32, Option<u128>), String>>,
}

/// Where an upstream is dialed, given what has come of the lookups.
pub open spec fn resolution(a: Answers, port: u16) -> Option<ResolvedAddrs> {
    match (a.v6, a.v4) {
        (Some(Ok(v6)), Some(Ok(v4))) => Some(
            dual_of(net::socket(IpAddr::V6(v6), port), v4_target(v4.0, v4.1, port)),
        ),
        (Some(Ok(v6)), _) => Some(single_of(net::socket(IpAddr::V6(v6), port))),
        (_, Some(Ok(v4))) => Some(single_of(v4_target(v4.0, v4.1, port))),
        _ => None,
    }
}

/// Why an upstream could not be resolved.
pub open spec fn resolution_problem(host: Seq<char>, a: Answers) -> Seq<char> {
    match (a.v6, a.v4) {
        (Some(Err(x)), Some(Err(y))) => neither_text(host, x@, y@),
        (Some(Err(x)), _) => x@,
        (_, Some(Err(y))) => y@,
        _ => "no address for "@ + host,
    }
}

/// Decide where an upstream is dialed.
pub fn resolve_upstream(host: &str, port: u16, answers: &Answers) -> (r: Result<ResolvedAddrs, String>)
    ensures
        match r {
            Ok(addrs) => resolution(*answers, port) == Some(addrs),
            Err(m) => resolution(*answers, port) is None && m@ == resolution_problem(host@, *answers),
        },
{
    match (&answers.v6, &answers.v4) {
        (Some(Ok(v6)), Some(Ok(v4))) => Ok(
            ResolvedAddrs::dual(SocketAddr::new(IpAddr::V6(*v6), port), nat64_or_v4(v4.0, port, v4.1)),
        ),
        (Some(Ok(v6)), _) => Ok(ResolvedAddrs::single(SocketAddr::new(IpAddr::V6(*v6), port))),
        (_, Some(Ok(v4))) => Ok(ResolvedAddrs::single(nat64_or_v4(v4.0, port, v4.1))),
        (Some(Err(x)), Some(Err(y))) => Err(neither_family_resolved(host, x.as_str(), y.as_str())),
        (Some(Err(x)), None) => Err(x.clone()),
        (None, Some(Err(y))) => Err(y.clone()),
        (None, None) => {
            let mut m = "no address for ".to_owned();
            text::push_text(&mut m, host);
            Err(m)
        },
    }
}

/// What a host that is an address contributes to the candidates of a pool:
/// itself, unless it is of the wrong family.
pub fn literal_candidates(ip: IpAddr, family: AddressFamily) -> (r: Vec<IpAddr>)
    ensures
        r@ == (if (ip is V4 && family == AddressFamily::Ipv6) || (ip is V6 && family == AddressFamily::Ipv4) {
            Seq::empty()
        } else {
            seq![ip]
        }),
{
    let usable = match (ip, family) {
        (IpAddr::V4(_), AddressFamily::Ipv6) => false,
        (IpAddr::V6(_), AddressFamily::Ipv4) => false,
        _ => true,
    };
    let mut out: Vec<IpAddr> = Vec::new();
    if usable {
        out.push(ip);
    }
    assert(out@ =~= if usable {
        seq![ip]
    } else {
        Seq::empty()
    });
    out
}

/// Every address that has come of the lookups, IPv4 first.
pub open spec fn all_addrs(v4: Option<Result<Vec<u32>, String>>, v6: Option<Result<Vec<u128>, String>>) -> Seq<IpAddr> {
    (match v4 {
        Some(Ok(list)) => list@.map_values(|a: u32| IpAddr::V4(a)),
        _ => Seq::empty(),
    }) + (match v6 {
        Some(Ok(list)) => list@.map_values(|a: u128| IpAddr::V6(a)),
        _ => Seq::empty(),
    })
}

/// Collect every address of a name for a pool, which compares them. One family
/// without an answer is no error as long as the other has one, and nothing is
/// projected: a pool ranks its projections by themselves.
pub fn resolve_all_ips(
    host: &str,
    v4: &Option<Result<Vec<u32>, String>>,
    v6: &Option<Result<Vec<u128>, String>>,
) -> (r: Result<Vec<IpAddr>, String>)
    ensures
        match r {
            Ok(list) => list@ == all_addrs(*v4, *v6) && list@.len() > 0,
            Err(m) => all_addrs(*v4, *v6).len() == 0 && m@ == (match (*v4, *v6) {
                (_, Some(Err(x))) => x@,
                (Some(Err(y)), _) => y@,
                _ => "no A or AAAA records for "@ + host@,
            }),
        },
{
    let mut out: Vec<IpAddr> = Vec::new();
    match v4 {
        Some(Ok(list)) => {
            let ghost all = list@.map_values(|a: u32| IpAddr::V4(a));
            let mut i: usize = 0;
            assert(out@ =~= all.take(0));
            while i < list.len()
                invariant
                    i <= list@.len(),
                    all == list@.map_values(|a: u32| IpAddr::V4(a)),
                    out@ == all.take(i as int),
                decreases list@.len() - i,
            {
                out.push(IpAddr::V4(list[i]));
                i = i + 1;
                assert(out@ =~= all.take(i as int));
            }
            assert(all.take(i as int) =~= all);
        },
        _ => {},
    }
    let ghost head = out@;
    match v6 {
        Some(Ok(list)) => {
            let ghost all = list@.map_values(|a: u128| IpAddr::V6(a));
            let mut i: usize = 0;
            assert(out@ =~= head + all.take(0));
            while i < list.len()
                invariant
                    i <= list@.len(),
                    all == list@.map_values(|a: u128| IpAddr::V6(a)),
                    out@ == head + all.take(i as int),
                decreases list@.len() - i,
            {
                out.push(IpAddr::V6(list[i]));
                i = i + 1;
                assert(out@ =~= head + all.take(i as int));
            }
            assert(all.take(i as int) =~= all);
        },
        _ => {},
    }
    assert(out@ =~= all_addrs(*v4, *v6));
    if out.len() > 0 {
        return Ok(out);
    }
    match (v4, v6) {
        (_, Some(Err(x))) => Err(x.clone()),
        (Some(Err(y)), _) => Err(y.clone()),
        _ => {
            let mut m = "no A or AAAA records for ".to_owned();
            text::push_text(&mut m, host);
            Err(m)
        },
    }
}

// ---------------------------------------------------------------------------
// Laws
// ---------------------------------------------------------------------------

/// IPv6 leads whenever both families have answered.
pub proof fn law_ipv6_leads(v6: u128, v4: (u32, Option<u128>), port: u16)
    ensures
        resolution(Answers { v6: Some(Ok(v6)), v4: Some(Ok(v4)) }, port) matches Some(r) && r.primary == net::socket(
            IpAddr::V6(v6),
            port,
        ) && r.fallback == Some(v4_target(v4.0, v4.1, port)),
{
}

/// One family that answers is enough, and then there is one path.
pub proof fn law_one_family_is_enough(a: Answers, port: u16)
    requires
        (a.v6 matches Some(Ok(_))) != (a.v4 matches Some(Ok(_))),
    ensures
        resolution(a, port) matches Some(r) && r.fallback is None,
{
}

/// A host that is an address is one path, whatever the family.
pub proof fn law_a_literal_has_no_second_address(ip: IpAddr, port: u16, family: AddressFamily, projected: Option<u128>)
    ensures
        single_of(literal_target(ip, port, family, projected)).fallback is None,
        ip is V6 ==> literal_target(ip, port, family, projected) == net::socket(ip, port),
{
}

/// A name is asked for only in the families that a route allows, and in all of them:
/// an IPv4 route never asks for AAAA records nor an IPv6 route for A records, and a
/// route of both asks for both, at once unless a prefix makes A records a last resort.
/// An address is not asked for at all.
pub proof fn law_only_allowed_records_are_asked_for(host: Seq<char>, nat64: bool)
    ensures
        net::ip(host) matches Some(ip) ==> forall|f: AddressFamily| #[trigger]
            lookup_of(host, f, nat64) == Lookup::Literal(ip),
        net::ip(host) is None ==> {
            &&& lookup_of(host, AddressFamily::Ipv4, nat64) is V4
            &&& lookup_of(host, AddressFamily::Ipv6, nat64) is V6
            &&& lookup_of(host, AddressFamily::Dual, false) is Both
            &&& lookup_of(host, AddressFamily::Dual, true) is V6ThenV4
        },
{
}

/// An upstream is dialed at the addresses that have come, at its port: the IPv4
/// address as it is or, where it was projected, at the projection and there alone.
pub proof fn law_upstream_is_dialed_where_it_was_found(v6: u128, v4: u32, projected: u128, port: u16, why: String)
    ensures
        ({
            let six = SocketAddr { ip: IpAddr::V6(v6), port, flowinfo: 0, scope_id: 0 };
            let four = SocketAddr { ip: IpAddr::V4(v4), port, flowinfo: 0, scope_id: 0 };
            let image = SocketAddr { ip: IpAddr::V6(projected), port, flowinfo: 0, scope_id: 0 };
            &&& resolution(Answers { v6: Some(Ok(v6)), v4: Some(Ok((v4, None))) }, port) == Some(
                ResolvedAddrs { primary: six, fallback: Some(four) },
            )
            &&& resolution(Answers { v6: Some(Ok(v6)), v4: None }, port) == Some(
                ResolvedAddrs { primary: six, fallback: None },
            )
            &&& resolution(Answers { v6: Some(Ok(v6)), v4: Some(Err(why)) }, port) == Some(
                ResolvedAddrs { primary: six, fallback: None },
            )
            &&& resolution(Answers { v6: None, v4: Some(Ok((v4, None))) }, port) == Some(
                ResolvedAddrs { primary: four, fallback: None },
            )
            &&& resolution(Answers { v6: Some(Err(why)), v4: Some(Ok((v4, None))) }, port) == Some(
                ResolvedAddrs { primary: four, fallback: None },
            )
            &&& resolution(Answers { v6: Some(Err(why)), v4: Some(Ok((v4, Some(projected)))) }, port) == Some(
                ResolvedAddrs { primary: image, fallback: None },
            )
            &&& resolution(Answers { v6: Some(Err(why)), v4: None }, port) is None
            &&& resolution(Answers { v6: None, v4: Some(Err(why)) }, port) is None
            &&& resolution(Answers { v6: Some(Err(why)), v4: Some(Err(why)) }, port) is None
        }),
{
}

/// A literal IPv4 address is dialed at its projection where there is one, except on an
/// IPv6 route, which knows no projections.
pub proof fn law_literal_is_projected(v4: u32, projected: u128, port: u16)
    ensures
        literal_target(IpAddr::V4(v4), port, AddressFamily::Dual, Some(projected)) == (SocketAddr {
            ip: IpAddr::V6(projected),
            port,
            flowinfo: 0,
            scope_id: 0,
        }),
        literal_target(IpAddr::V4(v4), port, AddressFamily::Ipv4, Some(projected)).ip == IpAddr::V6(projected),
        literal_target(IpAddr::V4(v4), port, AddressFamily::Ipv6, Some(projected)).ip == IpAddr::V4(v4),
        literal_target(IpAddr::V4(v4), port, AddressFamily::Dual, None) == (SocketAddr {
            ip: IpAddr::V4(v4),
            port,
            flowinfo: 0,
            scope_id: 0,
        }),
{
}

/// Host, port and path of what stands behind a scheme.
pub proof fn lemma_authority(host: Seq<char>, port: u16, path: Seq<char>)
    requires
        !host.contains('/'),
        !host.contains(':'),
        path.len() == 0 || path[0] == '/',
    ensures
        authority(host + path) == (host, None::<nat>, path),
        authority(host + seq![':'] + text::dec(port as nat) + path) == (host, Some(port as nat), path),
{
    let d = text::dec(port as nat);
    text::lemma_dec_digits(port as nat);
    let s = host + path;
    lemma_first_slash(host, path);
    assert(s.subrange(0, host.len() as int) =~= host);
    assert(s.subrange(host.len() as int, s.len() as int) =~= path);
    text::lemma_last_char(host, ':', host.len() as int);
    let name = host + seq![':'] + d;
    let t = name + path;
    assert(host + seq![':'] + d + path =~= t);
    assert(!name.contains('/')) by {
        assert forall|i: int| 0 <= i < name.len() implies name[i] != '/' by {
            if i < host.len() {
                assert(name[i] == host[i]);
            } else if i > host.len() {
                assert(name[i] == d[i - host.len() - 1]);
                assert(text::is_digit(d[i - host.len() - 1]));
            }
        }
    }
    lemma_first_slash(name, path);
    assert(t.subrange(0, name.len() as int) =~= name);
    assert(t.subrange(name.len() as int, t.len() as int) =~= path);
    text::lemma_last_char(name, ':', name.len() as int);
    let colon = text::last_char(name, ':', name.len() as int);
    assert(name[host.len() as int] == ':');
    assert(colon == host.len()) by {
        if colon > host.len() {
            assert(name[colon] == d[colon - host.len() - 1]);
            assert(text::is_digit(d[colon - host.len() - 1]));
        }
    }
    assert(name.subrange(colon + 1, name.len() as int) =~= d);
    assert(name.subrange(0, colon) =~= host);
    assert(text::is_digit(d[0]));
}

proof fn lemma_first_slash(name: Seq<char>, path: Seq<char>)
    requires
        !name.contains('/'),
        path.len() == 0 || path[0] == '/',
    ensures
        text::first_char(name + path, '/') == name.len(),
{
    let s = name + path;
    text::lemma_next_char(s, '/', 0);
    let at = text::first_char(s, '/');
    if at < name.len() {
        assert(s[at] == name[at]);
    }
    if path.len() > 0 {
        assert(s[name.len() as int] == path[0]);
    }
}

proof fn lemma_scheme(scheme: Seq<char>, rest: Seq<char>)
    ensures
        behind(scheme + rest, scheme) == Some(rest),
{
    let s = scheme + rest;
    assert(s.subrange(0, scheme.len() as int) =~= scheme);
    assert(s.subrange(scheme.len() as int, s.len() as int) =~= rest);
}

/// A resolver that is written out is read as it says: over HTTPS at port 443 and
/// `/dns-query`, or over TLS at port 853, unless a port or a path says otherwise; under
/// the name of its host, at the host's own address if it is one, else where the host was
/// resolved to.
#[verifier::rlimit(60)]
pub proof fn law_written_resolver_is_read(host: Seq<char>, port: u16, path: Seq<char>, ip: IpAddr)
    requires
        !host.contains('/'),
        !host.contains(':'),
        path.len() == 0 || path[0] == '/',
        net::ip(host) is None || net::ip(host) == Some(ip),
    ensures
        ({
            let at = seq![':'] + text::dec(port as nat);
            let query = if path.len() == 0 {
                "/dns-query"@
            } else {
                path
            };
            &&& spec_of("https://"@ + (host + path), Some(ip)) == Ok::<SpecView, Seq<char>>(
                SpecView::Doh { ip, port: 443, server_name: host, path: query },
            )
            &&& spec_of("https://"@ + (host + at + path), Some(ip)) == Ok::<SpecView, Seq<char>>(
                SpecView::Doh { ip, port: port as nat, server_name: host, path: query },
            )
            &&& spec_of("tls://"@ + (host + path), Some(ip)) == Ok::<SpecView, Seq<char>>(
                SpecView::Dot { ip, port: 853, server_name: host },
            )
            &&& spec_of("tls://"@ + (host + at + path), Some(ip)) == Ok::<SpecView, Seq<char>>(
                SpecView::Dot { ip, port: port as nat, server_name: host },
            )
            &&& net::ip(host) is None ==> {
                &&& spec_of("https://"@ + (host + path), None) is Err
                &&& spec_of("tls://"@ + (host + path), None) is Err
                &&& bootstrap_of("https://"@ + (host + path)) == Some((host, 443nat))
                &&& bootstrap_of("tls://"@ + (host + path)) == Some((host, 853nat))
                &&& bootstrap_of("https://"@ + (host + at + path)) == Some((host, port as nat))
                &&& bootstrap_of("tls://"@ + (host + at + path)) == Some((host, port as nat))
            }
            &&& net::ip(host) is Some ==> {
                &&& bootstrap_of("https://"@ + (host + path)) is None
                &&& bootstrap_of("tls://"@ + (host + path)) is None
            }
        }),
{
    let at = seq![':'] + text::dec(port as nat);
    assert(host + at + path =~= host + seq![':'] + text::dec(port as nat) + path);
    lemma_authority(host, port, path);
    lemma_https(host + path);
    lemma_https(host + at + path);
    lemma_tls(host + path);
    lemma_tls(host + at + path);
    reveal_strlit("/dns-query");
}

/// What begins with `https://` is told by that.
pub proof fn lemma_https(rest: Seq<char>)
    ensures
        !means_system("https://"@ + rest),
        behind("https://"@ + rest, "https://"@) == Some(rest),
{
    reveal_strlit("https://");
    lemma_scheme("https://"@, rest);
    lemma_not_system("https://"@ + rest);
}

/// What begins with `tls://` is told by that.
pub proof fn lemma_tls(rest: Seq<char>)
    ensures
        !means_system("tls://"@ + rest),
        behind("tls://"@ + rest, "https://"@) is None,
        behind("tls://"@ + rest, "tls://"@) == Some(rest),
{
    reveal_strlit("https://");
    reveal_strlit("tls://");
    lemma_scheme("tls://"@, rest);
    lemma_not_system("tls://"@ + rest);
    lemma_other_scheme("tls://"@ + rest, "https://"@, 0);
}

/// What begins with `udp://` is told by that.
pub proof fn lemma_udp(rest: Seq<char>)
    ensures
        !means_system("udp://"@ + rest),
        behind("udp://"@ + rest, "https://"@) is None,
        behind("udp://"@ + rest, "tls://"@) is None,
        behind("udp://"@ + rest, "udp://"@) == Some(rest),
{
    reveal_strlit("https://");
    reveal_strlit("tls://");
    reveal_strlit("udp://");
    lemma_scheme("udp://"@, rest);
    lemma_not_system("udp://"@ + rest);
    lemma_other_scheme("udp://"@ + rest, "https://"@, 0);
    lemma_other_scheme("udp://"@ + rest, "tls://"@, 0);
}

/// What begins with `tcp://` is told by that.
pub proof fn lemma_tcp(rest: Seq<char>)
    ensures
        !means_system("tcp://"@ + rest),
        behind("tcp://"@ + rest, "https://"@) is None,
        behind("tcp://"@ + rest, "tls://"@) is None,
        behind("tcp://"@ + rest, "udp://"@) is None,
        behind("tcp://"@ + rest, "tcp://"@) == Some(rest),
{
    reveal_strlit("https://");
    reveal_strlit("tls://");
    reveal_strlit("udp://");
    reveal_strlit("tcp://");
    lemma_scheme("tcp://"@, rest);
    lemma_not_system("tcp://"@ + rest);
    lemma_other_scheme("tcp://"@ + rest, "https://"@, 0);
    lemma_other_scheme("tcp://"@ + rest, "tls://"@, 1);
    lemma_other_scheme("tcp://"@ + rest, "udp://"@, 0);
}

proof fn lemma_not_system(s: Seq<char>)
    requires
        s.len() > 5,
        s[4] == '/' || s[5] == '/' || s.len() > 6,
    ensures
        !means_system(s),
{
    reveal_strlit("system");
    if text::lowered(s) == "system"@ {
        assert(text::lowered(s)[4] == "system"@[4]);
        assert(text::lowered(s)[5] == "system"@[5]);
        assert(text::lowered(s).len() == s.len());
    }
}

/// Nothing at all and `system`, in whichever case, mean the system's resolver.
pub proof fn law_system_is_read(s: Seq<char>, resolved: Option<IpAddr>)
    requires
        s.len() == 0 || {
            &&& s.len() == 6
            &&& s[0] == 's' || s[0] == 'S'
            &&& s[1] == 'y' || s[1] == 'Y'
            &&& s[2] == 's' || s[2] == 'S'
            &&& s[3] == 't' || s[3] == 'T'
            &&& s[4] == 'e' || s[4] == 'E'
            &&& s[5] == 'm' || s[5] == 'M'
        },
    ensures
        spec_of(s, resolved) == Ok::<SpecView, Seq<char>>(SpecView::System),
        bootstrap_of(s) is None,
{
    reveal_strlit("system");
    if s.len() > 0 {
        assert(text::lowered(s) =~= "system"@);
    }
}

/// A plain server is read at its own port, or at port 53 where it names none.
#[verifier::rlimit(60)]
pub proof fn law_plain_server_is_read(addr: Seq<char>)
    ensures
        ({
            let want = match net::socket_addr(addr) {
                Some(a) => Some(a),
                None => match net::ip(addr) {
                    Some(ip) => Some(SocketAddr { ip, port: 53, flowinfo: 0, scope_id: 0 }),
                    None => None,
                },
            };
            match want {
                Some(a) => {
                    &&& spec_of("udp://"@ + addr, None) == Ok::<SpecView, Seq<char>>(SpecView::Plain { addr: a })
                    &&& spec_of("tcp://"@ + addr, None) == Ok::<SpecView, Seq<char>>(SpecView::Plain { addr: a })
                },
                None => spec_of("udp://"@ + addr, None) is Err && spec_of("tcp://"@ + addr, None) is Err,
            }
        }),
{
    lemma_udp(addr);
    lemma_tcp(addr);
}

proof fn lemma_other_scheme(s: Seq<char>, scheme: Seq<char>, i: int)
    requires
        0 <= i < scheme.len(),
        i < s.len(),
        s[i] != scheme[i],
    ensures
        behind(s, scheme) is None,
{
    if scheme.is_prefix_of(s) {
        assert(s.subrange(0, scheme.len() as int)[i] == scheme[i]);
    }
}

/// The addresses of a pool's name are all that have come, IPv4 first; a family that has
/// not answered takes nothing from the other.
pub proof fn law_all_addresses_are_collected(v4: Vec<u32>, v6: Vec<u128>, why: String, i: int)
    ensures
        0 <= i < v4@.len() ==> all_addrs(Some(Ok(v4)), Some(Ok(v6)))[i] == IpAddr::V4(v4@[i]),
        0 <= i < v6@.len() ==> all_addrs(Some(Ok(v4)), Some(Ok(v6)))[v4@.len() + i] == IpAddr::V6(v6@[i]),
        all_addrs(Some(Ok(v4)), Some(Ok(v6))).len() == v4@.len() + v6@.len(),
        all_addrs(Some(Ok(v4)), Some(Err(why))).len() == v4@.len(),
        all_addrs(Some(Err(why)), Some(Ok(v6))).len() == v6@.len(),
        all_addrs(None, None).len() == 0,
{
}

} // verus!
