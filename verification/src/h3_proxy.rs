//! HTTP/3 requests: which of them may use the connection they came on, which
//! upstream connection carries them, and what is answered where none can.

pub mod pool;

use crate::config::{RouteType, SniPolicy, SniView};
use crate::octets;
use crate::proxy::RouteRuntime;
use crate::text;
use crate::text::concat3;
use crate::time::Duration;
use vstd::prelude::*;

verus! {

/// The most HTTP/3 connections at a time.
pub const MAX_ACTIVE_H3_CONNECTIONS: usize = 1024;

/// The most requests at a time on one connection.
pub const MAX_CONCURRENT_H3_REQUESTS_PER_CONNECTION: usize = 256;

/// The largest field section, in bytes.
pub const MAX_H3_FIELD_SECTION_SIZE: u64 = 65536;

/// The most upstream connections that are kept.
pub const MAX_UPSTREAM_H3_POOL_ENTRIES: usize = 256;

/// How long an unused upstream connection is kept, in seconds.
pub const UPSTREAM_H3_POOL_IDLE_SECS: u64 = 60;

/// 421: the request came on a connection for another upstream.
pub const MISDIRECTED_REQUEST: u16 = 421;

/// 502: the upstream cannot be reached.
pub const BAD_GATEWAY: u16 = 502;

/// 504: the upstream did not answer in time.
pub const GATEWAY_TIMEOUT: u16 = 504;

// ---------------------------------------------------------------------------
// Coalescing
// ---------------------------------------------------------------------------

/// What an inbound connection was established for.
#[derive(Debug, Clone)]
pub struct H3ProxyContext {
    pub handshake_route: usize,
    pub handshake_sni: String,
    pub route_name: String,
    /// Whether the host to dial follows the inbound name.
    pub reflects_dial_host: bool,
    /// Whether the name presented upstream follows the inbound name.
    pub reflects_server_name: bool,
    pub idle_timeout: Duration,
}

/// Whether a request may use the upstream connection of a handshake. It has to
/// take the same route; and where the dial or the name presented follows the
/// inbound name, it has to be for the same name.
pub open spec fn may_reuse(
    request_route: Option<usize>,
    handshake_route: usize,
    authority: Seq<char>,
    handshake_sni: Seq<char>,
    reflects_dial_host: bool,
    reflects_server_name: bool,
) -> bool {
    &&& request_route == Some(handshake_route)
    &&& text::lowered(authority) == text::lowered(handshake_sni) || !(reflects_dial_host || reflects_server_name)
}

/// Whether a request may use the upstream connection of a handshake.
pub fn authority_reuses_upstream(
    request_route: Option<usize>,
    handshake_route: usize,
    authority: &str,
    handshake_sni: &str,
    reflects_dial_host: bool,
    reflects_server_name: bool,
) -> (r: bool)
    ensures
        r == may_reuse(
            request_route,
            handshake_route,
            authority@,
            handshake_sni@,
            reflects_dial_host,
            reflects_server_name,
        ),
{
    match request_route {
        Some(route) => {
            if route != handshake_route {
                return false;
            }
        },
        None => return false,
    }
    let a = text::chars_of(authority);
    let b = text::chars_of(handshake_sni);
    let a = text::lowered_chars(a.as_slice());
    let b = text::lowered_chars(b.as_slice());
    if text::same_chars(a.as_slice(), b.as_slice()) {
        return true;
    }
    !(reflects_dial_host || reflects_server_name)
}

/// What becomes of a request.
#[derive(Debug, Clone, Copy, PartialEq, Eq, Structural)]
pub enum RequestStep {
    /// It is carried to the upstream.
    Forward,
    /// It is answered with an empty response of this status.
    Respond(u16),
}

impl H3ProxyContext {
    /// What a route and a handshake set for a connection.
    pub fn new(route: &RouteRuntime, handshake_route: usize, handshake_sni: &str) -> (r: Self)
        ensures
            r.handshake_route == handshake_route,
            r.handshake_sni@ == handshake_sni@,
            r.route_name@ == route.name@,
            r.reflects_dial_host == (route.upstream_host is None),
            r.reflects_server_name == (route.sni_policy@ !is Fixed),
            r.idle_timeout == route.idle_timeout,
    {
        let reflects_server_name = match &route.sni_policy {
            SniPolicy::Fixed(_) => false,
            _ => true,
        };
        H3ProxyContext {
            handshake_route,
            handshake_sni: handshake_sni.to_owned(),
            route_name: route.name.clone(),
            reflects_dial_host: route.upstream_host.is_none(),
            reflects_server_name,
            idle_timeout: route.idle_timeout,
        }
    }

    /// The name that a request is for: its own, else that of the handshake.
    pub fn authority(&self, own: Option<&str>) -> (r: String)
        ensures
            r@ == (match own {
                Some(a) => a@,
                None => self.handshake_sni@,
            }),
    {
        match own {
            Some(a) => a.to_owned(),
            None => self.handshake_sni.clone(),
        }
    }

    /// What becomes of a request whose name has been routed.
    pub fn on_request(&self, request_route: Option<usize>, authority: &str) -> (r: RequestStep)
        ensures
            r == if may_reuse(
                request_route,
                self.handshake_route,
                authority@,
                self.handshake_sni@,
                self.reflects_dial_host,
                self.reflects_server_name,
            ) {
                RequestStep::Forward
            } else {
                RequestStep::Respond(MISDIRECTED_REQUEST)
            },
    {
        if authority_reuses_upstream(
            request_route,
            self.handshake_route,
            authority,
            self.handshake_sni.as_str(),
            self.reflects_dial_host,
            self.reflects_server_name,
        ) {
            RequestStep::Forward
        } else {
            RequestStep::Respond(MISDIRECTED_REQUEST)
        }
    }
}

/// The status that tells a client why the upstream cannot be reached.
pub fn upstream_failure_status(timed_out: bool) -> (r: u16)
    ensures
        r == if timed_out {
            GATEWAY_TIMEOUT
        } else {
            BAD_GATEWAY
        },
{
    if timed_out {
        GATEWAY_TIMEOUT
    } else {
        BAD_GATEWAY
    }
}

// ---------------------------------------------------------------------------
// Upstreams
// ---------------------------------------------------------------------------

/// Where an upstream connection goes, and under which name.
#[derive(Debug, Clone, PartialEq, Eq)]
pub struct UpstreamIdentity {
    pub host: String,
    pub server_name: String,
}

/// That a route reflects a name and there is none.
pub open spec fn no_sni(name: Seq<char>) -> Seq<char> {
    "H3 route "@ + name + " reflects SNI upstream but none was presented"@
}

/// The host and the name of an upstream connection: what the route fixes, else the
/// name of the handshake; the host stands in for a name that is missing.
pub open spec fn identity(route: RouteRuntime, handshake_sni: Seq<char>) -> Result<(Seq<char>, Seq<char>), Seq<char>> {
    if route.upstream_host is None && handshake_sni.len() == 0 {
        Err(no_sni(route.name@))
    } else {
        let host = match route.upstream_host {
            Some(h) => h@,
            None => handshake_sni,
        };
        let name = match route.sni_policy@ {
            SniView::Fixed(n) => n,
            _ => if handshake_sni.len() > 0 {
                handshake_sni
            } else {
                host
            },
        };
        Ok((host, name))
    }
}

/// Where the upstream connection of a route goes, and under which name.
pub fn upstream_identity(route: &RouteRuntime, handshake_sni: &str) -> (r: Result<UpstreamIdentity, String>)
    ensures
        match r {
            Ok(i) => identity(*route, handshake_sni@) == Ok::<(Seq<char>, Seq<char>), Seq<char>>(
                (i.host@, i.server_name@),
            ),
            Err(m) => identity(*route, handshake_sni@) == Err::<(Seq<char>, Seq<char>), Seq<char>>(m@),
        },
{
    let given = handshake_sni.unicode_len() > 0;
    let host = match &route.upstream_host {
        Some(h) => h.clone(),
        None => {
            if !given {
                return Err(
                    concat3("H3 route ", route.name.as_str(), " reflects SNI upstream but none was presented"),
                );
            }
            handshake_sni.to_owned()
        },
    };
    let server_name = match &route.sni_policy {
        SniPolicy::Fixed(n) => n.clone(),
        _ => if given {
            handshake_sni.to_owned()
        } else {
            host.clone()
        },
    };
    Ok(UpstreamIdentity { host, server_name })
}

/// Requests that share an upstream connection mean the same upstream: a request
/// that may use the connection of a handshake would, as a handshake of its own,
/// have been given the same host and name, up to the case of ASCII letters.
pub proof fn law_shared_connection_has_one_identity(
    route: RouteRuntime,
    id: usize,
    authority: Seq<char>,
    handshake_sni: Seq<char>,
)
    requires
        may_reuse(
            Some(id),
            id,
            authority,
            handshake_sni,
            route.upstream_host is None,
            route.sni_policy@ !is Fixed,
        ),
    ensures
        match (identity(route, authority), identity(route, handshake_sni)) {
            (Ok(a), Ok(b)) => text::lowered(a.0) == text::lowered(b.0) && text::lowered(a.1) == text::lowered(b.1),
            (Err(a), Err(b)) => a == b,
            _ => false,
        },
{
    assert(text::lowered(authority).len() == authority.len());
    assert(text::lowered(handshake_sni).len() == handshake_sni.len());
}

/// A request never leaves its route: one that is routed elsewhere is never carried
/// on the connection.
pub proof fn law_request_keeps_its_route(
    request_route: Option<usize>,
    handshake_route: usize,
    authority: Seq<char>,
    handshake_sni: Seq<char>,
    reflects_dial_host: bool,
    reflects_server_name: bool,
)
    requires
        request_route != Some(handshake_route),
    ensures
        !may_reuse(
            request_route,
            handshake_route,
            authority,
            handshake_sni,
            reflects_dial_host,
            reflects_server_name,
        ),
{
}

/// HTTP/3 in ALPN.
pub open spec fn h3_alpn() -> Seq<u8> {
    seq![104u8, 51u8]
}

/// The protocols offered to an HTTP/3 upstream.
pub fn h3_offer() -> (r: Vec<Vec<u8>>)
    ensures
        octets::lists(r@) == seq![h3_alpn()],
{
    let name = vec![104u8, 51u8];
    assert(name@ =~= h3_alpn());
    let mut out: Vec<Vec<u8>> = Vec::new();
    out.push(name);
    assert(octets::lists(out@) =~= seq![h3_alpn()]);
    out
}

/// Refuse an upstream that has not agreed on HTTP/3.
pub fn check_protocol(negotiated: Option<&[u8]>) -> (r: Result<(), String>)
    ensures
        match negotiated {
            Some(p) => (r is Ok) == (p@ == h3_alpn()),
            None => r is Err,
        },
        r matches Err(m) ==> m@ == "upstream QUIC connection did not negotiate h3 ALPN"@,
{
    if let Some(p) = negotiated {
        let name = vec![104u8, 51u8];
        assert(name@ =~= h3_alpn());
        if octets::same(p, name.as_slice()) {
            return Ok(());
        }
    }
    Err("upstream QUIC connection did not negotiate h3 ALPN".to_owned())
}

/// Whether an upstream connection of a route offers ECH; a route of another kind
/// has none.
pub fn offers_ech(route: &RouteRuntime) -> (r: Result<bool, String>)
    ensures
        match route.route_type {
            RouteType::H3 => r == Ok::<bool, String>(false),
            RouteType::H3Ech => r == Ok::<bool, String>(true),
            _ => r matches Err(m) && m@ == "route "@ + route.name@ + " is not an HTTP/3 route"@,
        },
{
    match route.route_type {
        RouteType::H3 => Ok(false),
        RouteType::H3Ech => Ok(true),
        _ => Err(concat3("route ", route.name.as_str(), " is not an HTTP/3 route")),
    }
}

/// Whether the reason of a QUIC transport error speaks of a rejected ECH offer.
pub open spec fn tells_rejection(reason: Seq<char>) -> bool {
    let low = text::lowered(reason);
    &&& text::has_part(low, "rejected"@)
    &&& text::has_part(low, "encrypted client hello"@) || text::has_part(low, "ech"@)
}

/// Whether the reason of a QUIC transport error speaks of a rejected ECH offer.
pub fn is_ech_reject_reason(reason: &str) -> (r: bool)
    ensures
        r == tells_rejection(reason@),
{
    let cs = text::chars_of(reason);
    let low = text::lowered_chars(cs.as_slice());
    text::contains_text(low.as_slice(), "rejected") && (text::contains_text(low.as_slice(), "encrypted client hello")
        || text::contains_text(low.as_slice(), "ech"))
}

/// A request shares its handshake's connection exactly where it takes the same route and,
/// if the route follows the inbound name at all, is for the same name.
pub proof fn law_connection_is_shared_by_one_upstream(
    id: usize,
    authority: Seq<char>,
    sni: Seq<char>,
    dial: bool,
    name: bool,
)
    ensures
        may_reuse(Some(id), id, authority, authority, dial, name),
        may_reuse(Some(id), id, authority, sni, false, false),
        may_reuse(Some(id), id, authority, sni, true, name) <==> text::lowered(authority) == text::lowered(sni),
        may_reuse(Some(id), id, authority, sni, dial, true) <==> text::lowered(authority) == text::lowered(sni),
        !may_reuse(None, id, authority, sni, dial, name),
{
}

/// An upstream is dialed at the route's host and presented the route's name; where the
/// route fixes neither, the client's name is both; where the client has none, a fixed
/// host stands for it; without either there is no upstream.
pub proof fn law_upstream_is_the_routes_or_the_clients(route: RouteRuntime, sni: Seq<char>)
    ensures
        route.upstream_host is None && sni.len() == 0 ==> identity(route, sni) is Err,
        route.upstream_host matches Some(h) ==> (identity(route, sni) matches Ok(v) && v.0 == h@),
        route.upstream_host is None && sni.len() > 0 ==> (identity(route, sni) matches Ok(v) && v.0 == sni),
        identity(route, sni) matches Ok(v) ==> (route.sni_policy@ matches SniView::Fixed(n) ==> v.1 == n),
        identity(route, sni) matches Ok(v) ==> (route.sni_policy@ !is Fixed && sni.len() > 0 ==> v.1 == sni),
        identity(route, sni) matches Ok(v) ==> (route.sni_policy@ !is Fixed && sni.len() == 0 ==> v.1 == v.0),
{
}

/// The statuses and bounds are those of the protocol: 421 for a misdirected request, 502
/// and 504 for an upstream that fails or is late; 1024 connections of 256 requests each,
/// fields of 64 KiB, and 256 upstream connections that are kept for a minute. The
/// protocol is `h3`.
pub proof fn law_statuses_and_bounds()
    ensures
        MISDIRECTED_REQUEST == 421,
        BAD_GATEWAY == 502,
        GATEWAY_TIMEOUT == 504,
        MAX_ACTIVE_H3_CONNECTIONS == 1024,
        MAX_CONCURRENT_H3_REQUESTS_PER_CONNECTION == 256,
        MAX_H3_FIELD_SECTION_SIZE == 65536,
        MAX_UPSTREAM_H3_POOL_ENTRIES == 256,
        UPSTREAM_H3_POOL_IDLE_SECS == 60,
        h3_alpn() == seq!['h' as u8, '3' as u8],
{
}

/// A reason speaks of a rejected offer where it has `rejected` and either `ECH` or
/// `encrypted client hello`, in whichever case and place, and nowhere else.
pub proof fn law_rejection_is_told(a: Seq<char>, word: Seq<char>, b: Seq<char>, rejected: Seq<char>, c: Seq<char>)
    requires
        text::lowered(word) == "ech"@ || text::lowered(word) == "encrypted client hello"@,
        text::lowered(rejected) == "rejected"@,
    ensures
        tells_rejection(a + word + b + rejected + c),
        !text::lowered(a).contains('j') ==> !tells_rejection(a),
        !text::lowered(a).contains('c') ==> !tells_rejection(a),
{
    let all = a + word + b + rejected + c;
    let low = text::lowered(all);
    let at = a.len() as int;
    let to = (a + word + b).len() as int;
    assert(low.subrange(at, at + word.len()) =~= text::lowered(word));
    assert(low.subrange(to, to + rejected.len()) =~= text::lowered(rejected));
    assert(text::lowered(word).len() == word.len() && text::lowered(rejected).len() == rejected.len());
    reveal_strlit("rejected");
    reveal_strlit("ech");
    reveal_strlit("encrypted client hello");
    let la = text::lowered(a);
    if !la.contains('j') && text::has_part(la, "rejected"@) {
        let i = choose|i: int|
            0 <= i <= la.len() - "rejected"@.len() && #[trigger] la.subrange(i, i + "rejected"@.len()) == "rejected"@;
        assert(la.subrange(i, i + 8)[2] == la[i + 2]);
    }
    if !la.contains('c') {
        if text::has_part(la, "ech"@) {
            let i = choose|i: int| 0 <= i <= la.len() - "ech"@.len() && #[trigger] la.subrange(i, i + "ech"@.len()) == "ech"@;
            assert(la.subrange(i, i + 3)[1] == la[i + 1]);
        }
        if text::has_part(la, "encrypted client hello"@) {
            let w = "encrypted client hello"@;
            let i = choose|i: int| 0 <= i <= la.len() - w.len() && #[trigger] la.subrange(i, i + w.len()) == w;
            assert(la.subrange(i, i + w.len())[2] == la[i + 2]);
        }
    }
}

} // verus!
