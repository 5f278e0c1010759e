//! The data path of one connection: what is dialed, under which name, and what the
//! client is answered.
//!
//! Bytes are spliced and never reframed, so both sides of a connection speak the
//! same protocol. A route to a TLS upstream that allows HTTP/2 dials first and
//! answers the client with what the upstream chose. A route to a cleartext upstream
//! lets the client choose.

use crate::config::{AddressFamily, FailPolicy, RouteType, SniPolicy, SniView};
use crate::ech;
use crate::net::SocketAddr;
use crate::octets;
use crate::peek::Inbound;
use crate::text;
use crate::text::{concat3, push_text};
use crate::time::{Duration, Instant};
use rustls::{ClientConfig, RootCertStore};
use std::sync::Arc;
use vstd::prelude::*;
use vstd::slice::slice_subrange;

verus! {

// ---------------------------------------------------------------------------
// Routing keys
// ---------------------------------------------------------------------------

/// The host of a routing key: what brackets enclose, else what stands before the
/// colon if there is just one.
pub open spec fn bare_host(host: Seq<char>) -> Seq<char> {
    if host.len() > 0 && host[0] == '[' {
        let rest = host.subrange(1, host.len() as int);
        rest.subrange(0, text::first_char(rest, ']'))
    } else if text::repeats(host, ':') {
        host
    } else {
        host.subrange(0, text::first_char(host, ':'))
    }
}

/// Strip a trailing port from a routing key. A bare IPv6 literal has none.
pub fn strip_port(host: &str) -> (r: String)
    ensures
        r@ == bare_host(host@),
{
    let cs = text::chars_of(host);
    let all = cs.as_slice();
    if all.len() > 0 && all[0] == '[' {
        let rest = slice_subrange(all, 1, all.len());
        let close = text::find_char(rest, ']', 0);
        return text::string_of(slice_subrange(rest, 0, close));
    }
    let first = text::find_char(all, ':', 0);
    if first < all.len() && text::find_char(all, ':', first + 1) < all.len() {
        proof {
            text::lemma_repeats(host@, ':');
        }
        return text::string_of(all);
    }
    proof {
        text::lemma_repeats(host@, ':');
    }
    text::string_of(slice_subrange(all, 0, first))
}

/// A port behind a name, or behind a bracketed IPv6 literal, is stripped, and
/// nothing else is.
pub proof fn law_port_is_stripped(host: Seq<char>, tail: Seq<char>)
    ensures
        !host.contains(':') && !tail.contains(':') && !(host.len() > 0 && host[0] == '[') ==> bare_host(
            host.push(':') + tail,
        ) == host && bare_host(host) == host,
        !host.contains(']') ==> bare_host(seq!['['] + host.push(']') + tail) == host,
{
    if !host.contains(':') && !tail.contains(':') && !(host.len() > 0 && host[0] == '[') {
        let s = host.push(':') + tail;
        text::lemma_first_char_at(s, ':', host.len() as int);
        text::lemma_repeats(s, ':');
        text::lemma_repeats(host, ':');
        assert forall|k: int| host.len() < k < s.len() implies s[k] != ':' by {
            assert(s[k] == tail[k - host.len() - 1]);
        }
        text::lemma_next_char(s, ':', (host.len() + 1) as int);
        assert(s.subrange(0, host.len() as int) =~= host);
        text::lemma_next_char(host, ':', 0);
        assert(host.subrange(0, host.len() as int) =~= host);
    }
    if !host.contains(']') {
        let s = seq!['['] + host.push(']') + tail;
        let rest = s.subrange(1, s.len() as int);
        assert(rest =~= host.push(']') + tail);
        text::lemma_first_char_at(rest, ']', host.len() as int);
        assert(rest.subrange(0, host.len() as int) =~= host);
    }
}

// ---------------------------------------------------------------------------
// Protocols
// ---------------------------------------------------------------------------

/// HTTP/2 in ALPN.
pub open spec fn h2() -> Seq<u8> {
    seq![104u8, 50u8]
}

/// HTTP/1.1 in ALPN.
pub open spec fn http11() -> Seq<u8> {
    seq![104u8, 116u8, 116u8, 112u8, 47u8, 49u8, 46u8, 49u8]
}

fn h2_name() -> (r: Vec<u8>)
    ensures
        r@ == h2(),
{
    let r = vec![104u8, 50u8];
    assert(r@ =~= h2());
    r
}

fn http11_name() -> (r: Vec<u8>)
    ensures
        r@ == http11(),
{
    let r = vec![104u8, 116u8, 116u8, 112u8, 47u8, 49u8, 46u8, 49u8];
    assert(r@ =~= http11());
    r
}

/// What the protocols of a client's offer are.
pub open spec fn offered(offer: Option<Vec<&[u8]>>) -> Seq<Seq<u8>> {
    match offer {
        Some(list) => list@.map_values(|p: &[u8]| p@),
        None => Seq::empty(),
    }
}

/// A protocol alone if it was offered, else nothing.
pub open spec fn if_offered(offer: Seq<Seq<u8>>, protocol: Seq<u8>) -> Seq<Seq<u8>> {
    if offer.contains(protocol) {
        seq![protocol]
    } else {
        Seq::empty()
    }
}

fn offers(list: &Vec<&[u8]>, protocol: &Vec<u8>) -> (r: bool)
    ensures
        r == list@.map_values(|p: &[u8]| p@).contains(protocol@),
{
    let ghost all = list@.map_values(|p: &[u8]| p@);
    let mut i: usize = 0;
    while i < list.len()
        invariant
            i <= list@.len(),
            all == list@.map_values(|p: &[u8]| p@),
            forall|k: int| 0 <= k < i ==> all[k] != protocol@,
        decreases list@.len() - i,
    {
        assert(all[i as int] == list@[i as int]@);
        if octets::same(list[i], protocol.as_slice()) {
            return true;
        }
        i = i + 1;
    }
    false
}

/// Narrow a client's offer to what can be spliced, HTTP/2 first. An empty offer
/// upstream means no ALPN extension at all.
pub fn negotiable_alpn(client_offer: Option<Vec<&[u8]>>) -> (r: Vec<Vec<u8>>)
    ensures
        octets::lists(r@) == if_offered(offered(client_offer), h2()) + if_offered(offered(client_offer), http11()),
{
    let mut out: Vec<Vec<u8>> = Vec::new();
    match &client_offer {
        None => {},
        Some(list) => {
            let first = h2_name();
            if offers(list, &first) {
                out.push(first);
            }
            let second = http11_name();
            if offers(list, &second) {
                out.push(second);
            }
        },
    }
    assert(octets::lists(out@) =~= if_offered(offered(client_offer), h2()) + if_offered(
        offered(client_offer),
        http11(),
    ));
    out
}

/// One value for each set of protocols that a client can be answered with.
#[derive(Debug, Clone)]
pub struct ServerConfigs<C> {
    /// No ALPN extension.
    pub none: C,
    /// HTTP/1.1 alone.
    pub h1: C,
    /// HTTP/2 alone.
    pub h2: C,
    /// HTTP/2 before HTTP/1.1.
    pub h2h1: C,
    /// HTTP/3 alone.
    pub h3: C,
}

/// The answer that follows an upstream's choice.
pub open spec fn mirrored<C>(configs: ServerConfigs<C>, selected: Option<Seq<u8>>, offered_any: bool) -> C {
    if selected == Some(h2()) {
        configs.h2
    } else if selected == Some(http11()) || offered_any {
        configs.h1
    } else {
        configs.none
    }
}

/// How to answer a client, given what the upstream selected. An upstream that named
/// nothing is taken to speak HTTP/1.1, and the client is told so if it had asked.
pub fn mirror_choice<'a, C>(configs: &'a ServerConfigs<C>, upstream_selected: Option<&[u8]>, client_offered_any: bool) -> (r:
    &'a C)
    ensures
        *r == mirrored(
            *configs,
            match upstream_selected {
                Some(p) => Some(p@),
                None => None,
            },
            client_offered_any,
        ),
{
    if let Some(p) = upstream_selected {
        let first = h2_name();
        if octets::same(p, first.as_slice()) {
            return &configs.h2;
        }
        let second = http11_name();
        if octets::same(p, second.as_slice()) {
            return &configs.h1;
        }
    }
    if client_offered_any {
        &configs.h1
    } else {
        &configs.none
    }
}

/// Both sides agree: a client that is answered with HTTP/2 has an upstream that
/// chose it, and one that is answered with a single protocol that the upstream
/// named gets exactly that.
pub proof fn law_client_follows_upstream<C>(configs: ServerConfigs<C>, selected: Option<Seq<u8>>, offered_any: bool)
    requires
        configs.h2 != configs.h1,
        configs.h2 != configs.none,
    ensures
        (mirrored(configs, selected, offered_any) == configs.h2) == (selected == Some(h2())),
        selected == Some(http11()) ==> mirrored(configs, selected, offered_any) == configs.h1,
{
    assert(h2().len() != http11().len());
}

/// An upstream is offered only what the client offered, and what can be spliced.
pub proof fn law_offer_is_narrowed(offer: Seq<Seq<u8>>, protocol: Seq<u8>)
    ensures
        (if_offered(offer, h2()) + if_offered(offer, http11())).contains(protocol) == (offer.contains(protocol) && (
        protocol == h2() || protocol == http11())),
{
    let narrowed = if_offered(offer, h2()) + if_offered(offer, http11());
    if offer.contains(h2()) {
        assert(narrowed[0] == h2());
    }
    if offer.contains(http11()) {
        assert(narrowed.last() == http11());
    }
}

// ---------------------------------------------------------------------------
// Routes
// ---------------------------------------------------------------------------

/// What a route says about its connections.
#[derive(Debug, Clone)]
pub struct RouteRuntime {
    pub name: String,
    pub route_type: RouteType,
    /// A fixed host to dial; without one, the routing key.
    pub upstream_host: Option<String>,
    pub upstream_port: u16,
    pub sni_policy: SniPolicy,
    /// Whether HTTP/2 is allowed.
    pub http2: bool,
    pub require_ech: bool,
    pub max_retries: u32,
    pub connect_timeout: Duration,
    pub idle_timeout: Duration,
    pub address_family: AddressFamily,
    pub nat64: Option<String>,
    pub fail: FailPolicy,
}

/// How a connection is served.
#[derive(Debug, Clone, Copy, PartialEq, Eq, Structural)]
pub enum Path {
    /// Spliced as it is.
    Raw,
    /// The upstream is dialed first, and the client is answered with its choice.
    Mirrored,
    /// The client is answered first.
    Terminated,
    /// There is no TLS to terminate.
    Plaintext,
}

/// How a connection is served, and where it goes.
#[derive(Debug, Clone)]
pub struct Plan {
    /// The name that the upstream certificate is checked against.
    pub sni: Option<String>,
    /// The host to dial.
    pub dial_host: Option<String>,
    pub path: Path,
}

/// The bare host of an optional key.
pub open spec fn key_host(key: Option<Seq<char>>) -> Option<Seq<char>> {
    match key {
        Some(k) => Some(bare_host(k)),
        None => None,
    }
}

/// The name under which an upstream is spoken to.
pub open spec fn sni_for(policy: SniView, key: Option<Seq<char>>) -> Option<Seq<char>> {
    match policy {
        SniView::Fixed(name) => Some(name),
        _ => key_host(key),
    }
}

/// The host that is dialed.
pub open spec fn dial_host_for(rt: RouteRuntime, key: Option<Seq<char>>) -> Option<Seq<char>> {
    match rt.upstream_host {
        Some(h) => Some(h@),
        None => key_host(key),
    }
}

/// How a connection of a route is served.
pub open spec fn path_for(rt: RouteRuntime, tls: bool) -> Path {
    if rt.route_type == RouteType::Raw {
        Path::Raw
    } else if !tls {
        Path::Plaintext
    } else if rt.http2 && (rt.route_type == RouteType::Tls || rt.route_type == RouteType::Ech) {
        Path::Mirrored
    } else {
        Path::Terminated
    }
}

/// That a route reflects a name and there is none.
pub open spec fn nothing_to_reflect(name: Seq<char>) -> Seq<char> {
    "route "@ + name + " reflects the source SNI/Host upstream, but the connection presented none"@
}

/// That there is no inner name.
pub open spec fn no_inner_name(name: Seq<char>) -> Seq<char> {
    "ech route "@ + name
        + ": the connection carried no SNI/Host to use as the inner name, and no override_sni supplies one"@
}

/// How the upstream of a connection is spoken to.
#[derive(Debug, Clone, PartialEq, Eq)]
pub enum Speak {
    /// In the clear.
    Clear,
    /// Over TLS, under this name.
    Tls(String),
    /// Over TLS with ECH, under this inner name.
    Ech(String),
}

/// What a [`Speak`] says.
pub enum SpeakView {
    Clear,
    Tls(Seq<char>),
    Ech(Seq<char>),
}

impl View for Speak {
    type V = SpeakView;

    open spec fn view(&self) -> SpeakView {
        match self {
            Speak::Clear => SpeakView::Clear,
            Speak::Tls(n) => SpeakView::Tls(n@),
            Speak::Ech(n) => SpeakView::Ech(n@),
        }
    }
}

/// How an upstream is spoken to by a route that re-originates over TCP. A plain TLS
/// upstream goes by its host where there is no name; ECH needs one.
pub open spec fn speak_for(rt: RouteRuntime, sni: Option<Seq<char>>, host: Seq<char>) -> Result<SpeakView, Seq<char>> {
    match rt.route_type {
        RouteType::Tls => Ok(
            SpeakView::Tls(
                match sni {
                    Some(n) => n,
                    None => host,
                },
            ),
        ),
        RouteType::Ech => match sni {
            Some(n) => Ok(SpeakView::Ech(n)),
            None => Err(no_inner_name(rt.name@)),
        },
        _ => Ok(SpeakView::Clear),
    }
}

impl RouteRuntime {
    /// Plan a connection from what was peeked at its start.
    pub fn plan(&self, inbound: &Inbound) -> (r: Plan)
        ensures
            text::opt_text(r.sni) == sni_for(self.sni_policy@, inbound@.key()),
            text::opt_text(r.dial_host) == dial_host_for(*self, inbound@.key()),
            r.path == path_for(*self, inbound@ is Tls),
    {
        let key = inbound.key();
        let sni = match &self.sni_policy {
            SniPolicy::Fixed(name) => Some(name.clone()),
            _ => match key {
                Some(k) => Some(strip_port(k)),
                None => None,
            },
        };
        let dial_host = match &self.upstream_host {
            Some(h) => Some(h.clone()),
            None => match key {
                Some(k) => Some(strip_port(k)),
                None => None,
            },
        };
        let path = match self.route_type {
            RouteType::Raw => Path::Raw,
            kind => {
                if !inbound.is_tls() {
                    Path::Plaintext
                } else if self.http2 && (kind == RouteType::Tls || kind == RouteType::Ech) {
                    Path::Mirrored
                } else {
                    Path::Terminated
                }
            },
        };
        Plan { sni, dial_host, path }
    }

    /// The host to dial, which a reflecting route may lack.
    pub fn host_to_dial(&self, dial_host: &Option<String>) -> (r: Result<String, String>)
        ensures
            match *dial_host {
                Some(h) => r matches Ok(x) && x@ == h@,
                None => r matches Err(m) && m@ == nothing_to_reflect(self.name@),
            },
    {
        match dial_host {
            Some(h) => Ok(h.clone()),
            None => Err(
                concat3(
                    "route ",
                    self.name.as_str(),
                    " reflects the source SNI/Host upstream, but the connection presented none",
                ),
            ),
        }
    }

    /// How the upstream is spoken to.
    pub fn speak(&self, sni: &Option<String>, host: &str) -> (r: Result<Speak, String>)
        requires
            self.route_type == RouteType::Http || self.route_type == RouteType::Tls || self.route_type
                == RouteType::Ech,
        ensures
            match r {
                Ok(s) => speak_for(*self, text::opt_text(*sni), host@) == Ok::<SpeakView, Seq<char>>(s@),
                Err(m) => speak_for(*self, text::opt_text(*sni), host@) == Err::<SpeakView, Seq<char>>(m@),
            },
    {
        match self.route_type {
            RouteType::Tls => match sni {
                Some(n) => Ok(Speak::Tls(n.clone())),
                None => Ok(Speak::Tls(host.to_owned())),
            },
            RouteType::Ech => match sni {
                Some(n) => Ok(Speak::Ech(n.clone())),
                None => Err(
                    concat3(
                        "ech route ",
                        self.name.as_str(),
                        ": the connection carried no SNI/Host to use as the inner name, and no override_sni supplies one",
                    ),
                ),
            },
            _ => Ok(Speak::Clear),
        }
    }

    /// The answer to a client on the terminating path. A cleartext upstream has no
    /// choice of its own to follow, so the client's decides.
    pub fn terminated_config<'a, C>(&self, configs: &'a ServerConfigs<C>) -> (r: &'a C)
        ensures
            *r == if self.http2 && self.route_type == RouteType::Http {
                configs.h2h1
            } else {
                configs.h1
            },
    {
        if self.http2 && self.route_type == RouteType::Http {
            &configs.h2h1
        } else {
            &configs.h1
        }
    }

    /// The TLS configuration of a dial without ECH. Leaving out the SNI leaves the
    /// check of the certificate in place.
    pub fn tls_config(&self, roots: &Arc<RootCertStore>, alpn: &Vec<Vec<u8>>) -> (c: ClientConfig)
        ensures
            ech::config_parts(c) == (ech::ConfigParts {
                mode: None,
                roots: **roots,
                sends_sni: self.sni_policy@ !is Omit,
                alpn: octets::lists(alpn@),
            }),
    {
        let sends_sni = match &self.sni_policy {
            SniPolicy::Omit => false,
            _ => true,
        };
        ech::plain_client_config(roots, sends_sni, alpn)
    }

    /// The inbound name for which an upstream's certificate tells what may be
    /// covered: only where the upstream was asked for that very name.
    pub fn coverage_for(&self, sni: &Option<String>) -> (r: Option<String>)
        ensures
            text::opt_text(r) == if self.sni_policy@ is Reflect {
                text::opt_text(*sni)
            } else {
                None
            },
    {
        match &self.sni_policy {
            SniPolicy::Reflect => text::copy_opt(sni),
            _ => None,
        }
    }
}

/// The upstream certificate is checked against the name that the client asked for,
/// sent or not, unless the route fixes another.
pub proof fn law_omitted_sni_is_still_checked(key: Option<Seq<char>>)
    ensures
        sni_for(SniView::Omit, key) == sni_for(SniView::Reflect, key),
{
}

// ---------------------------------------------------------------------------
// Dialing with ECH
// ---------------------------------------------------------------------------

/// How a handshake with ECH ended.
#[derive(Debug, Clone)]
pub enum EchOutcome {
    /// It was completed; the text names the ECH status.
    Done { accepted: bool, status: String },
    /// The server rejected the ECH offer.
    Rejected(String),
    /// It failed otherwise.
    Failed(String),
    /// It took too long.
    TimedOut,
}

/// What follows on a handshake with ECH.
#[derive(Debug)]
pub enum EchNext {
    /// The connection is used.
    Use,
    /// The configuration is dropped and another handshake made.
    Retry,
    /// The dial has failed.
    Fail(String),
}

/// The handshakes of one dial with ECH.
#[derive(Debug, Clone, Copy, PartialEq, Eq, Structural)]
pub struct EchDial {
    pub require_ech: bool,
    pub max_retries: u32,
    /// How many retries have been made.
    pub attempt: u32,
}

impl EchDial {
    /// No more retries than allowed.
    pub open spec fn valid(self) -> bool {
        self.attempt <= self.max_retries
    }

    /// Before the first handshake.
    pub fn new(require_ech: bool, max_retries: u32) -> (r: Self)
        ensures
            r == (EchDial { require_ech, max_retries, attempt: 0 }),
            r.valid(),
    {
        EchDial { require_ech, max_retries, attempt: 0 }
    }

    /// Take the end of a handshake.
    pub fn on_outcome(&mut self, outcome: &EchOutcome) -> (r: EchNext)
        requires
            old(self).valid(),
        ensures
            final(self).valid(),
            final(self).require_ech == old(self).require_ech,
            final(self).max_retries == old(self).max_retries,
            final(self).attempt == if r is Retry {
                old(self).attempt + 1
            } else {
                old(self).attempt as int
            },
            match *outcome {
                EchOutcome::Done { accepted, status } => if accepted || !old(self).require_ech {
                    r is Use
                } else {
                    r matches EchNext::Fail(m) && m@ == "ECH required but status was "@ + status@
                },
                EchOutcome::Rejected(reason) => if old(self).attempt < old(self).max_retries {
                    r is Retry
                } else {
                    r matches EchNext::Fail(m) && m@ == "upstream ECH handshake: "@ + reason@
                },
                EchOutcome::Failed(reason) => r matches EchNext::Fail(m) && m@ == "upstream ECH handshake: "@
                    + reason@,
                EchOutcome::TimedOut => r matches EchNext::Fail(m) && m@ == "upstream ECH handshake timed out"@,
            },
    {
        match outcome {
            EchOutcome::Done { accepted, status } => {
                if *accepted || !self.require_ech {
                    return EchNext::Use;
                }
                let mut m = "ECH required but status was ".to_owned();
                push_text(&mut m, status.as_str());
                EchNext::Fail(m)
            },
            EchOutcome::Rejected(reason) => {
                if self.attempt < self.max_retries {
                    self.attempt = self.attempt + 1;
                    return EchNext::Retry;
                }
                let mut m = "upstream ECH handshake: ".to_owned();
                push_text(&mut m, reason.as_str());
                EchNext::Fail(m)
            },
            EchOutcome::Failed(reason) => {
                let mut m = "upstream ECH handshake: ".to_owned();
                push_text(&mut m, reason.as_str());
                EchNext::Fail(m)
            },
            EchOutcome::TimedOut => EchNext::Fail("upstream ECH handshake timed out".to_owned()),
        }
    }
}

// ---------------------------------------------------------------------------
// Splicing
// ---------------------------------------------------------------------------

/// A direction of a spliced connection.
#[derive(Debug, Clone, Copy, PartialEq, Eq, Structural)]
pub enum Direction {
    /// Client to upstream.
    Up,
    /// Upstream to client.
    Down,
}

/// What has happened on a spliced connection.
#[derive(Debug, Clone)]
pub enum SpliceEvent {
    /// Bytes were copied.
    Chunk(Direction),
    /// A side has closed, so the other side's writer is closed too.
    Closed(Direction),
    /// Copying failed.
    Failed(Direction, String),
    /// Time has passed.
    Tick,
}

/// What becomes of a spliced connection.
#[derive(Debug)]
pub enum SpliceNext {
    /// It goes on.
    Continue,
    /// It is over.
    Finished,
    /// It has failed.
    Broken(String),
}

/// How a direction ended.
#[derive(Debug, Clone)]
pub enum Ended {
    /// It has not.
    Open,
    Closed,
    Failed(String),
}

/// What an [`Ended`] says.
pub enum EndedView {
    Open,
    Closed,
    Failed(Seq<char>),
}

impl View for Ended {
    type V = EndedView;

    open spec fn view(&self) -> EndedView {
        match self {
            Ended::Open => EndedView::Open,
            Ended::Closed => EndedView::Closed,
            Ended::Failed(m) => EndedView::Failed(m@),
        }
    }
}

/// A connection that is being spliced. Each direction runs to its own end. The
/// whole ends when both have, or when nothing has been copied for too long.
#[derive(Debug)]
pub struct Splice {
    pub up: Ended,
    pub down: Ended,
    /// How long nothing may be copied; zero for ever.
    pub idle: Duration,
    /// When something was last copied.
    pub last: Instant,
}

/// A splice as it stands.
pub struct SpliceView {
    pub up: EndedView,
    pub down: EndedView,
    pub idle: nat,
    pub last: nat,
}

impl View for Splice {
    type V = SpliceView;

    open spec fn view(&self) -> SpliceView {
        SpliceView {
            up: self.up@,
            down: self.down@,
            idle: self.idle.nanos as nat,
            last: self.last.nanos as nat,
        }
    }
}

/// What an event does.
pub enum EventView {
    Chunk(Direction),
    End(Direction, EndedView),
    Tick,
}

/// What an event does.
pub open spec fn event_view(e: SpliceEvent) -> EventView {
    match e {
        SpliceEvent::Chunk(d) => EventView::Chunk(d),
        SpliceEvent::Closed(d) => EventView::End(d, EndedView::Closed),
        SpliceEvent::Failed(d, m) => EventView::End(d, EndedView::Failed(m@)),
        SpliceEvent::Tick => EventView::Tick,
    }
}

impl SpliceView {
    /// The splice after an event.
    pub open spec fn after(self, e: EventView, now: nat) -> Self {
        match e {
            EventView::Chunk(_) => SpliceView { last: now, ..self },
            EventView::End(Direction::Up, how) => SpliceView { up: how, ..self },
            EventView::End(Direction::Down, how) => SpliceView { down: how, ..self },
            EventView::Tick => self,
        }
    }

    /// Both directions have ended.
    pub open spec fn over(self) -> bool {
        self.up !is Open && self.down !is Open
    }

    /// Nothing has been copied for too long.
    pub open spec fn stale(self, now: nat) -> bool {
        self.idle > 0 && now >= self.last + self.idle
    }

    /// What becomes of the splice: once over, the failure of the way up counts
    /// before that of the way down.
    pub open spec fn next(self, now: nat) -> NextView {
        if self.over() {
            match (self.up, self.down) {
                (EndedView::Failed(m), _) => NextView::Broken("proxying data (c->u): "@ + m),
                (_, EndedView::Failed(m)) => NextView::Broken("proxying data (u->c): "@ + m),
                _ => NextView::Finished,
            }
        } else if self.stale(now) {
            NextView::Broken("idle timeout"@)
        } else {
            NextView::Continue
        }
    }
}

/// What a [`SpliceNext`] says.
pub enum NextView {
    Continue,
    Finished,
    Broken(Seq<char>),
}

impl View for SpliceNext {
    type V = NextView;

    open spec fn view(&self) -> NextView {
        match self {
            SpliceNext::Continue => NextView::Continue,
            SpliceNext::Finished => NextView::Finished,
            SpliceNext::Broken(m) => NextView::Broken(m@),
        }
    }
}

impl Splice {
    /// A splice that begins.
    pub fn start(idle: Duration, now: Instant) -> (r: Self)
        ensures
            r@ == (SpliceView {
                up: EndedView::Open,
                down: EndedView::Open,
                idle: idle.nanos as nat,
                last: now.nanos as nat,
            }),
    {
        Splice { up: Ended::Open, down: Ended::Open, idle, last: now }
    }

    /// Take an event.
    pub fn on_event(&mut self, event: &SpliceEvent, now: Instant) -> (r: SpliceNext)
        requires
            old(self).idle.valid(),
            old(self).last.valid(),
            now.valid(),
        ensures
            final(self)@ == old(self)@.after(event_view(*event), now.nanos as nat),
            final(self).idle == old(self).idle,
            final(self).last.valid(),
            r@ == final(self)@.next(now.nanos as nat),
    {
        match event {
            SpliceEvent::Chunk(_) => {
                self.last = now;
            },
            SpliceEvent::Closed(Direction::Up) => {
                self.up = Ended::Closed;
            },
            SpliceEvent::Closed(Direction::Down) => {
                self.down = Ended::Closed;
            },
            SpliceEvent::Failed(Direction::Up, m) => {
                self.up = Ended::Failed(m.clone());
            },
            SpliceEvent::Failed(Direction::Down, m) => {
                self.down = Ended::Failed(m.clone());
            },
            SpliceEvent::Tick => {},
        }
        match (&self.up, &self.down) {
            (Ended::Open, _) => {},
            (_, Ended::Open) => {},
            (Ended::Failed(m), _) => {
                let mut out = "proxying data (c->u): ".to_owned();
                push_text(&mut out, m.as_str());
                return SpliceNext::Broken(out);
            },
            (_, Ended::Failed(m)) => {
                let mut out = "proxying data (u->c): ".to_owned();
                push_text(&mut out, m.as_str());
                return SpliceNext::Broken(out);
            },
            _ => {
                return SpliceNext::Finished;
            },
        }
        if self.idle.nanos > 0 && now.nanos >= self.last.nanos + self.idle.nanos {
            return SpliceNext::Broken("idle timeout".to_owned());
        }
        SpliceNext::Continue
    }
}

/// A half-closed connection goes on: while bytes are copied in time, closing one
/// direction does not end the other.
pub proof fn law_half_close_goes_on(s: SpliceView, closed: Direction, now: nat)
    requires
        s.up is Open,
        s.down is Open,
        !s.stale(now),
    ensures
        s.after(EventView::End(closed, EndedView::Closed), now).next(now) is Continue,
{
}

/// A connection on which something was just copied is not idle, however long ago
/// it began; without a limit it never is.
pub proof fn law_activity_resets_the_clock(s: SpliceView, d: Direction, now: nat, later: nat)
    requires
        !s.over(),
        now <= later,
        s.idle == 0 || later < now + s.idle,
    ensures
        s.after(EventView::Chunk(d), now).after(EventView::Tick, later).next(later) is Continue,
{
}

// ---------------------------------------------------------------------------
// Failing
// ---------------------------------------------------------------------------

/// How long a connection to a fixed fallback may take: ten seconds.
pub const FALLBACK_CONNECT_SECS: u64 = 10;

/// How long a fallback connection may stay idle: two minutes.
pub const FALLBACK_IDLE_SECS: u64 = 120;

/// What becomes of a connection that cannot be served.
#[derive(Debug, Clone, PartialEq, Eq)]
pub enum FailAction {
    /// It is dropped.
    Close,
    /// It is spliced to a fixed address.
    Splice { to: SocketAddr, connect_timeout: Duration, idle: Duration },
    /// It is spliced to the host that it asked for, as the system resolves it.
    Outbound { host: String, port: u16, idle: Duration },
}

/// Apply a fail policy to a connection whose bytes are still untouched.
pub fn apply_fail(policy: &FailPolicy, inbound: &Inbound, ctx: &str) -> (r: Result<FailAction, String>)
    ensures
        match *policy {
            FailPolicy::Close => r matches Ok(a) && a is Close,
            FailPolicy::Passthrough { addr } => r matches Ok(FailAction::Splice { to, connect_timeout, idle })
                && to == addr && connect_timeout.nanos == 10000000000 && idle.nanos == 120000000000,
            FailPolicy::SystemOutbound => match inbound@.key() {
                Some(k) => r matches Ok(FailAction::Outbound { host, port, idle }) && host@ == bare_host(k) && port
                    == if inbound@ is Tls {
                    443int
                } else {
                    80
                } && idle.nanos == 120000000000,
                None => r matches Err(m) && m@ == ctx@ + ": no SNI/Host for system-outbound"@,
            },
        },
{
    match policy {
        FailPolicy::Close => Ok(FailAction::Close),
        FailPolicy::Passthrough { addr } => Ok(
            FailAction::Splice {
                to: *addr,
                connect_timeout: Duration::from_secs(FALLBACK_CONNECT_SECS),
                idle: Duration::from_secs(FALLBACK_IDLE_SECS),
            },
        ),
        FailPolicy::SystemOutbound => match inbound.key() {
            Some(k) => {
                let port: u16 = if inbound.is_tls() {
                    443
                } else {
                    80
                };
                Ok(
                    FailAction::Outbound {
                        host: strip_port(k),
                        port,
                        idle: Duration::from_secs(FALLBACK_IDLE_SECS),
                    },
                )
            },
            None => {
                let mut m = ctx.to_owned();
                push_text(&mut m, ": no SNI/Host for system-outbound");
                Err(m)
            },
        },
    }
}

// ---------------------------------------------------------------------------
// What a connection may rely on
// ---------------------------------------------------------------------------

/// The host that is dialed has nothing to do with the name that is presented: two
/// routes that agree on their upstream host dial the same host for every
/// connection, whatever else they say. A fixed host is dialed as it is written.
/// Without one it is the connection's own name, a port behind it or brackets round
/// it left out; and a connection without a name has nowhere to go.
pub proof fn law_dialed_host_is_the_fixed_one_or_the_clients(
    a: RouteRuntime,
    b: RouteRuntime,
    key: Option<Seq<char>>,
    name: Seq<char>,
    port: Seq<char>,
)
    requires
        text::opt_text(a.upstream_host) == text::opt_text(b.upstream_host),
    ensures
        dial_host_for(a, key) == dial_host_for(b, key),
        a.upstream_host matches Some(host) ==> dial_host_for(a, key) == Some(host@),
        a.upstream_host is None ==> dial_host_for(a, None) is None,
        a.upstream_host is None && !name.contains(':') && !port.contains(':') && !(name.len() > 0 && name[0] == '[')
            ==> dial_host_for(a, Some(name)) == Some(name) && dial_host_for(a, Some(name + seq![':'] + port)) == Some(
            name,
        ),
        a.upstream_host is None && !name.contains(']') ==> dial_host_for(a, Some(seq!['['] + name + seq![']'])) == Some(
            name,
        ) && dial_host_for(a, Some(seq!['['] + name + seq![']', ':'] + port)) == Some(name),
{
    law_port_is_stripped(name, port);
    law_port_is_stripped(name, Seq::empty());
    law_port_is_stripped(name, seq![':'] + port);
    assert(name.push(':') + port =~= name + seq![':'] + port);
    assert(seq!['['] + name.push(']') + Seq::<char>::empty() =~= seq!['['] + name + seq![']']);
    assert(seq!['['] + name.push(']') + (seq![':'] + port) =~= seq!['['] + name + seq![']', ':'] + port);
}

/// A name with two colons and no brackets is an address as it stands, and keeps them.
pub proof fn law_bare_address_is_kept(a: Seq<char>, b: Seq<char>, c: Seq<char>)
    requires
        !(a.len() > 0 && a[0] == '['),
    ensures
        bare_host(a + seq![':'] + b + seq![':'] + c) == a + seq![':'] + b + seq![':'] + c,
{
    let s = a + seq![':'] + b + seq![':'] + c;
    let i = a.len() as int;
    let j = a.len() as int + 1 + b.len();
    assert(s[i] == ':' && s[j] == ':');
    if a.len() > 0 {
        assert(s[0] == a[0]);
    }
    text::lemma_next_char(s, ':', 0);
    let first = text::first_char(s, ':');
    assert(first <= i);
    text::lemma_next_char(s, ':', first + 1);
    text::lemma_repeats(s, ':');
}

/// The name that is presented upstream is the route's own, for every connection;
/// where the route has none, it is the client's, a port left out.
pub proof fn law_presented_name_is_the_fixed_one_or_the_clients(
    policy: SniView,
    key: Option<Seq<char>>,
    name: Seq<char>,
    port: Seq<char>,
)
    ensures
        policy matches SniView::Fixed(own) ==> sni_for(policy, key) == Some(own),
        policy !is Fixed ==> sni_for(policy, None) is None,
        policy !is Fixed && !name.contains(':') && !port.contains(':') && !(name.len() > 0 && name[0] == '[') ==> sni_for(
            policy,
            Some(name),
        ) == Some(name) && sni_for(policy, Some(name + seq![':'] + port)) == Some(name),
{
    law_port_is_stripped(name, port);
    assert(name.push(':') + port =~= name + seq![':'] + port);
}

/// A raw route never answers the client itself. Any other route does so if and only
/// if the client speaks TLS. It waits for the upstream's choice only where HTTP/2 is
/// allowed and the upstream speaks TLS, since only then is there a choice to follow.
pub proof fn law_only_tls_is_terminated(rt: RouteRuntime, tls: bool)
    ensures
        path_for(rt, tls) is Raw <==> rt.route_type is Raw,
        rt.route_type !is Raw ==> (path_for(rt, tls) is Plaintext <==> !tls),
        path_for(rt, tls) is Mirrored ==> rt.http2,
        path_for(rt, tls) is Mirrored ==> rt.route_type is Tls || rt.route_type is Ech,
        tls && rt.http2 && rt.route_type is Tls ==> path_for(rt, tls) is Mirrored,
        tls && rt.http2 && rt.route_type is Ech ==> path_for(rt, tls) is Mirrored,
{
}

/// An upstream is spoken to as its route says: in the clear only on a route that is
/// neither TLS nor ECH, and with ECH only on an ECH route, under the name presented.
/// A TLS route without a name presents the host it dials; an ECH route without one is
/// refused.
pub proof fn law_upstream_is_spoken_to_as_the_route_says(rt: RouteRuntime, name: Seq<char>, host: Seq<char>)
    ensures
        rt.route_type is Tls ==> speak_for(rt, Some(name), host) == Ok::<SpeakView, Seq<char>>(SpeakView::Tls(name)),
        rt.route_type is Tls ==> speak_for(rt, None, host) == Ok::<SpeakView, Seq<char>>(SpeakView::Tls(host)),
        rt.route_type is Ech ==> speak_for(rt, Some(name), host) == Ok::<SpeakView, Seq<char>>(SpeakView::Ech(name)),
        rt.route_type is Ech ==> speak_for(rt, None, host) is Err,
        rt.route_type is Http ==> speak_for(rt, Some(name), host) == Ok::<SpeakView, Seq<char>>(SpeakView::Clear),
        rt.route_type is Http ==> speak_for(rt, None, host) == Ok::<SpeakView, Seq<char>>(SpeakView::Clear),
{
}

/// The protocols are named as ALPN registers them.
pub proof fn law_protocols_have_their_names()
    ensures
        h2() == "h2"@.map_values(|c: char| c as u8),
        http11() == "http/1.1"@.map_values(|c: char| c as u8),
{
    reveal_strlit("h2");
    reveal_strlit("http/1.1");
    assert(h2() =~= "h2"@.map_values(|c: char| c as u8));
    assert(http11() =~= "http/1.1"@.map_values(|c: char| c as u8));
}

/// A client is never answered with a protocol that the upstream does not speak: with
/// HTTP/2 if and only if the upstream chose it, else with HTTP/1.1 wherever the client
/// asked for any or the upstream named it, else with none.
pub proof fn law_answer_is_the_upstreams_choice<C>(
    configs: ServerConfigs<C>,
    selected: Option<Seq<u8>>,
    offered_any: bool,
)
    ensures
        selected == Some(h2()) ==> mirrored(configs, selected, offered_any) == configs.h2,
        selected != Some(h2()) && offered_any ==> mirrored(configs, selected, offered_any) == configs.h1,
        selected == Some(http11()) ==> mirrored(configs, selected, offered_any) == configs.h1,
        selected is None && !offered_any ==> mirrored(configs, selected, offered_any) == configs.none,
{
    assert(h2().len() != http11().len());
}

/// HTTP/2 is offered before HTTP/1.1.
pub proof fn law_http2_is_offered_first(offer: Seq<Seq<u8>>)
    ensures
        offer.contains(h2()) ==> (if_offered(offer, h2()) + if_offered(offer, http11()))[0] == h2(),
        offer.contains(h2()) && offer.contains(http11()) ==> if_offered(offer, h2()) + if_offered(offer, http11())
            == seq![h2(), http11()],
{
    if offer.contains(h2()) && offer.contains(http11()) {
        assert(if_offered(offer, h2()) + if_offered(offer, http11()) =~= seq![h2(), http11()]);
    }
}

/// A splice is over when both directions have ended and not before, however they
/// ended. It has then failed if either direction has, and says which; a failure on
/// the way up is told first. Until it is over it ends only by idling.
pub proof fn law_splice_ends_with_both_directions(s: SpliceView, now: nat)
    ensures
        s.next(now) is Finished <==> s.up is Closed && s.down is Closed,
        s.up is Open || s.down is Open ==> s.next(now) == (if s.idle > 0 && now >= s.last + s.idle {
            NextView::Broken("idle timeout"@)
        } else {
            NextView::Continue
        }),
        s.up !is Open && s.down !is Open && s.up is Failed ==> s.next(now) == NextView::Broken(
            "proxying data (c->u): "@ + s.up->Failed_0,
        ),
        s.up is Closed && s.down is Failed ==> s.next(now) == NextView::Broken(
            "proxying data (u->c): "@ + s.down->Failed_0,
        ),
{
}

/// An event changes what it is about and nothing else: a direction's end leaves the
/// other direction and the clock, and only copied bytes set the clock.
pub proof fn law_event_changes_what_it_is_about(s: SpliceView, how: EndedView, d: Direction, now: nat)
    ensures
        ({
            let t = s.after(EventView::End(Direction::Up, how), now);
            t.up == how && t.down == s.down && t.last == s.last && t.idle == s.idle
        }),
        ({
            let t = s.after(EventView::End(Direction::Down, how), now);
            t.down == how && t.up == s.up && t.last == s.last && t.idle == s.idle
        }),
        ({
            let t = s.after(EventView::Chunk(d), now);
            t.last == now && t.up == s.up && t.down == s.down && t.idle == s.idle
        }),
        s.after(EventView::Tick, now) == s,
{
}

} // verus!
