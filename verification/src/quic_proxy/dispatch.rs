//! Where a datagram goes: to a routed flow, to the HTTP/3 endpoint, into a flow's
//! buffer, or nowhere.

use super::header;
use super::header::{is_quic_initial, LongHeader};
use super::model;
use super::model::{FlowMap, InspectAnswer, MAX_INSPECTION_BYTES};
use super::table;
use super::table::{FlowTable, InspectResult};
use crate::config::{FailPolicy, RouteType};
use crate::net;
use crate::net::{IpAddr, SocketAddr};
use crate::text;
use crate::time::{Duration, Instant};
use vstd::prelude::*;

verus! {

// ---------------------------------------------------------------------------
// Datagrams
// ---------------------------------------------------------------------------

/// Why a datagram is dropped.
#[derive(Debug, Clone, Copy, PartialEq, Eq, Structural)]
pub enum DropReason {
    /// It starts no flow and belongs to none.
    UnknownFlow,
    /// Flows that are routed already leave no room for a new one.
    NoRoom,
    /// The flows that are not routed yet hold too much together.
    OverBudget,
    /// The flow's Initial packets make no sense.
    Malformed,
}

/// What to do with a datagram.
#[derive(Debug)]
pub enum Dispatch {
    /// Hand it to the HTTP/3 endpoint.
    ToH3,
    Drop(DropReason),
    /// It is kept until the server name is known.
    Kept,
    /// Hand it to a routed flow, whose client may have moved.
    Forward { flow: u64, moved: bool },
    /// The server name of a flow is known: route it, with what it has sent.
    Route { flow: u64, sni: String, packets: Vec<Vec<u8>> },
}

/// What a [`Dispatch`] says.
pub enum DispatchView {
    ToH3,
    Drop(DropReason),
    Kept,
    Forward { flow: u64, moved: bool },
    Route { flow: u64, sni: Seq<char>, packets: Seq<Seq<u8>> },
}

impl View for Dispatch {
    type V = DispatchView;

    open spec fn view(&self) -> DispatchView {
        match self {
            Dispatch::ToH3 => DispatchView::ToH3,
            Dispatch::Drop(reason) => DispatchView::Drop(*reason),
            Dispatch::Kept => DispatchView::Kept,
            Dispatch::Forward { flow, moved } => DispatchView::Forward { flow: *flow, moved: *moved },
            Dispatch::Route { flow, sni, packets } => DispatchView::Route {
                flow: *flow,
                sni: sni@,
                packets: table::views(packets@),
            },
        }
    }
}

/// What a datagram does on the flow that it belongs to.
pub open spec fn on_flow(m: FlowMap, id: u64, h3: bool, peer: SocketAddr, datagram: Seq<u8>, now: Instant) -> (
    FlowMap,
    DispatchView,
) {
    let moved = model::with_peer(m, id, peer);
    if moved.contains_key(id) && moved[id].state is Forwarding {
        (moved, DispatchView::Forward { flow: id, moved: m[id].peer != peer })
    } else {
        let (after, answer) = model::with_inspected(moved, id, datagram, now);
        if model::inspection_bytes(after) > MAX_INSPECTION_BYTES {
            (after.remove(id), DispatchView::Drop(DropReason::OverBudget))
        } else {
            match answer {
                InspectAnswer::NeedMore => (after, DispatchView::Kept),
                InspectAnswer::Invalid => (
                    after.remove(id),
                    if h3 {
                        DispatchView::ToH3
                    } else {
                        DispatchView::Drop(DropReason::Malformed)
                    },
                ),
                InspectAnswer::Routed { sni, packets } => (after, DispatchView::Route { flow: id, sni, packets }),
            }
        }
    }
}

/// What a datagram does to a listener's flows, and where it goes. `next` is the
/// id that a new flow gets.
pub open spec fn dispatched(
    m: FlowMap,
    next: u64,
    h3: bool,
    h3_only: bool,
    peer: SocketAddr,
    datagram: Seq<u8>,
    now: Instant,
) -> (FlowMap, u64, DispatchView) {
    if h3_only && !header::starts_initial(datagram) {
        (m, next, DispatchView::ToH3)
    } else {
        let kept = model::pruned(m, now);
        match model::flow_of(kept, peer, datagram, !h3) {
            Some(id) => {
                let (after, action) = on_flow(kept, id, h3, peer, datagram, now);
                (after, next, action)
            },
            None => if !header::starts_initial(datagram) {
                (
                    kept,
                    next,
                    if h3 {
                        DispatchView::ToH3
                    } else {
                        DispatchView::Drop(DropReason::UnknownFlow)
                    },
                )
            } else {
                let roomy = model::made_room(kept);
                if !model::has_room(roomy) || roomy.contains_key(next) {
                    (roomy, next, DispatchView::Drop(DropReason::NoRoom))
                } else {
                    let dcid = header::long_header(datagram)->0.dcid;
                    let (after, action) = on_flow(
                        roomy.insert(next, model::new_flow(peer, now, Some(dcid))),
                        next,
                        h3,
                        peer,
                        datagram,
                        now,
                    );
                    (after, model::id_after(next), action)
                }
            },
        }
    }
}

/// What becomes of a flow whose route is known.
#[derive(Debug, Clone, Copy, PartialEq, Eq, Structural)]
pub enum RouteAction {
    /// No route takes it.
    Unmatched,
    /// Connect it to its upstream, without terminating it.
    StartRaw,
    /// Hand what it has sent to the HTTP/3 endpoint, which owns it from here on.
    ToH3,
    /// Its route terminates HTTP/3, but there is no endpoint.
    NoH3Endpoint,
    /// Its route does not speak QUIC.
    NotQuic,
}

/// What becomes of a flow on a route of a given type.
pub open spec fn route_action(route: Option<RouteType>, h3: bool) -> RouteAction {
    match route {
        None => RouteAction::Unmatched,
        Some(RouteType::Raw) => RouteAction::StartRaw,
        Some(RouteType::H3) | Some(RouteType::H3Ech) => if h3 {
            RouteAction::ToH3
        } else {
            RouteAction::NoH3Endpoint
        },
        Some(RouteType::Tls) | Some(RouteType::Ech) | Some(RouteType::Http) => RouteAction::NotQuic,
    }
}

/// Why a raw flow is not connected.
#[derive(Debug, Clone, Copy, PartialEq, Eq, Structural)]
pub enum RawRefusal {
    /// Too many raw flows.
    Flows,
    /// Too many raw flows on the way to their upstreams.
    Connects,
    /// Too many bytes queued for upstreams.
    Bytes,
    /// The flow is gone.
    Gone,
}

/// What a raw flow could get hold of.
#[derive(Debug, Clone, Copy, PartialEq, Eq, Structural)]
pub struct RawPermits {
    pub flow: bool,
    pub connect: bool,
    /// Room in the forwarding budget for everything that the flow has sent.
    pub bytes: bool,
}

/// Whether a raw flow may be connected, and to which client it belongs.
pub open spec fn raw_admission(m: FlowMap, id: u64, permits: RawPermits) -> Result<SocketAddr, RawRefusal> {
    if !permits.flow {
        Err(RawRefusal::Flows)
    } else if !permits.connect {
        Err(RawRefusal::Connects)
    } else if !permits.bytes {
        Err(RawRefusal::Bytes)
    } else if !m.contains_key(id) {
        Err(RawRefusal::Gone)
    } else {
        Ok(m[id].peer)
    }
}

/// The dispatcher of one QUIC listener.
pub struct Dispatcher {
    flows: FlowTable,
    h3: bool,
    h3_only: bool,
}

impl View for Dispatcher {
    type V = FlowMap;

    closed spec fn view(&self) -> FlowMap {
        self.flows@
    }
}

impl Dispatcher {
    /// Whether the listener terminates HTTP/3.
    pub closed spec fn h3(&self) -> bool {
        self.h3
    }

    /// Whether every route of the listener terminates HTTP/3.
    pub closed spec fn h3_only(&self) -> bool {
        self.h3_only
    }

    /// The id that the next flow gets.
    pub closed spec fn next(&self) -> u64 {
        self.flows.next()
    }

    /// The table is sound, and the flows that are not routed yet keep to their
    /// memory budget.
    pub closed spec fn valid(&self) -> bool {
        &&& self.flows.valid()
        &&& model::inspection_bytes(self.flows@) <= MAX_INSPECTION_BYTES
        &&& self.h3_only ==> self.h3
    }

    /// The memory that flows which are not routed yet hold together is bounded, at
    /// all times.
    pub proof fn law_inspection_memory_is_bounded(&self)
        requires
            self.valid(),
        ensures
            model::inspection_bytes(self@) <= MAX_INSPECTION_BYTES,
    {
    }

    /// A dispatcher without flows, for a listener with routes of the given types.
    pub fn new(types: &Vec<RouteType>) -> (r: Self)
        ensures
            r.valid(),
            r@ == Map::<u64, model::FlowView>::empty(),
            r.next() == 1,
            r.h3() == any_h3(types@),
            r.h3_only() == (any_h3(types@) && all_h3(types@)),
    {
        let flows = FlowTable::new();
        proof {
            model::lemma_empty_counts();
        }
        let h3 = serves_h3(types);
        let h3_only = h3 && serves_only_h3(types);
        Dispatcher { flows, h3, h3_only }
    }

    /// Take a datagram that has come in from `peer`.
    pub fn on_datagram(&mut self, peer: SocketAddr, datagram: &[u8], now: Instant) -> (r: Dispatch)
        requires
            old(self).valid(),
            now.valid(),
        ensures
            final(self).valid(),
            final(self).h3() == old(self).h3(),
            final(self).h3_only() == old(self).h3_only(),
            (final(self)@, final(self).next(), r@) == dispatched(
                old(self)@,
                old(self).next(),
                old(self).h3(),
                old(self).h3_only(),
                peer,
                datagram@,
                now,
            ),
    {
        let ghost m = self.flows@;
        if self.h3_only && !is_quic_initial(datagram) {
            return Dispatch::ToH3;
        }
        self.flows.prune_stale_inspecting(now);
        let ghost kept = self.flows@;
        proof {
            model::law_pruning_spares_forwarding(m, now);
            model::lemma_part_counts(kept, m);
        }
        let id = match self.flows.flow_id_for(peer, datagram, !self.h3) {
            Some(id) => id,
            None => {
                let dcid = match LongHeader::parse(datagram) {
                    Some(header) => {
                        if header.is_initial() {
                            Some(header.dcid)
                        } else {
                            None
                        }
                    },
                    None => None,
                };
                let dcid = match dcid {
                    Some(dcid) => dcid,
                    None => {
                        return if self.h3 {
                            Dispatch::ToH3
                        } else {
                            Dispatch::Drop(DropReason::UnknownFlow)
                        };
                    },
                };
                proof {
                    self.flows.lemma_valid();
                    model::law_pressure_spares_forwarding(kept);
                    model::lemma_part_counts(model::made_room(kept), kept);
                }
                if !self.flows.make_room_for_inspecting() || !self.flows.has_free_id() {
                    return Dispatch::Drop(DropReason::NoRoom);
                }
                let ghost roomy = self.flows@;
                let id = self.flows.insert_inspecting(peer, now, Some(dcid));
                proof {
                    model::lemma_counts_change(roomy, self.flows@, id);
                    assert(model::total_len(Seq::<Seq<u8>>::empty()) == 0);
                }
                id
            },
        };
        self.on_flow(id, peer, datagram, now)
    }

    fn on_flow(&mut self, id: u64, peer: SocketAddr, datagram: &[u8], now: Instant) -> (r: Dispatch)
        requires
            old(self).valid(),
            now.valid(),
        ensures
            final(self).valid(),
            final(self).h3 == old(self).h3,
            final(self).h3_only == old(self).h3_only,
            final(self).flows.next() == old(self).flows.next(),
            (final(self).flows@, r@) == on_flow(old(self).flows@, id, old(self).h3, peer, datagram@, now),
    {
        let ghost m = self.flows@;
        let moved = self.flows.migrate_peer(id, peer);
        let ghost at_peer = self.flows@;
        proof {
            model::lemma_counts_change(m, at_peer, id);
        }
        if self.flows.is_forwarding(id) {
            return Dispatch::Forward { flow: id, moved };
        }
        let result = self.flows.inspect_datagram(id, datagram, now);
        let ghost after = self.flows@;
        proof {
            assert forall|x: u64| #[trigger] after.remove(id).contains_key(x) implies at_peer.contains_key(x)
                && after.remove(id)[x] == at_peer[x] by {}
            model::lemma_part_counts(after.remove(id), at_peer);
        }
        let (_, bytes) = self.flows.inspecting_stats();
        if bytes > MAX_INSPECTION_BYTES {
            self.flows.remove(id);
            return Dispatch::Drop(DropReason::OverBudget);
        }
        match result {
            InspectResult::NeedMore => Dispatch::Kept,
            InspectResult::Invalid => {
                self.flows.remove(id);
                if self.h3 {
                    Dispatch::ToH3
                } else {
                    Dispatch::Drop(DropReason::Malformed)
                }
            },
            InspectResult::Routed { sni, packets } => Dispatch::Route { flow: id, sni, packets },
        }
    }

    /// Take the type of the route that a flow's server name has led to. Only a raw
    /// flow stays in the table.
    pub fn on_routed(&mut self, id: u64, route: Option<RouteType>) -> (r: RouteAction)
        requires
            old(self).valid(),
        ensures
            final(self).valid(),
            final(self).h3() == old(self).h3(),
            final(self).h3_only() == old(self).h3_only(),
            final(self).next() == old(self).next(),
            r == route_action(route, old(self).h3()),
            final(self)@ == (if r == RouteAction::StartRaw {
                old(self)@
            } else {
                old(self)@.remove(id)
            }),
    {
        let action = match route {
            None => RouteAction::Unmatched,
            Some(RouteType::Raw) => RouteAction::StartRaw,
            Some(RouteType::H3) => if self.h3 {
                RouteAction::ToH3
            } else {
                RouteAction::NoH3Endpoint
            },
            Some(RouteType::H3Ech) => if self.h3 {
                RouteAction::ToH3
            } else {
                RouteAction::NoH3Endpoint
            },
            Some(RouteType::Tls) => RouteAction::NotQuic,
            Some(RouteType::Ech) => RouteAction::NotQuic,
            Some(RouteType::Http) => RouteAction::NotQuic,
        };
        match action {
            RouteAction::StartRaw => {},
            _ => {
                self.forget(id);
            },
        }
        action
    }

    /// Forget a flow: its upstream is gone, or its queue is.
    pub fn forget(&mut self, id: u64)
        requires
            old(self).valid(),
        ensures
            final(self).valid(),
            final(self).h3() == old(self).h3(),
            final(self).h3_only() == old(self).h3_only(),
            final(self).next() == old(self).next(),
            final(self)@ == old(self)@.remove(id),
    {
        let ghost m = self.flows@;
        self.flows.remove(id);
        proof {
            assert forall|x: u64| #[trigger] m.remove(id).contains_key(x) implies m.contains_key(x) && m.remove(id)[x]
                == m[x] by {}
            model::lemma_part_counts(self.flows@, m);
        }
    }

    /// Connect a raw flow, if it could get hold of what it takes. The flow is
    /// forgotten otherwise. The answer is the client's latest address.
    pub fn admit_raw(&mut self, id: u64, permits: RawPermits) -> (r: Result<SocketAddr, RawRefusal>)
        requires
            old(self).valid(),
        ensures
            final(self).valid(),
            final(self).h3() == old(self).h3(),
            final(self).h3_only() == old(self).h3_only(),
            final(self).next() == old(self).next(),
            r == raw_admission(old(self)@, id, permits),
            final(self)@ == (if r is Ok {
                model::with_promoted(old(self)@, id)
            } else {
                old(self)@.remove(id)
            }),
    {
        let ghost m = self.flows@;
        if !permits.flow {
            self.forget(id);
            return Err(RawRefusal::Flows);
        }
        if !permits.connect {
            self.forget(id);
            return Err(RawRefusal::Connects);
        }
        if !permits.bytes {
            self.forget(id);
            return Err(RawRefusal::Bytes);
        }
        match self.flows.peer(id) {
            Some(peer) => {
                self.flows.promote(id);
                proof {
                    model::lemma_counts_change(m, self.flows@, id);
                }
                Ok(peer)
            },
            None => {
                assert(m =~= m.remove(id));
                Err(RawRefusal::Gone)
            },
        }
    }

    /// Take a datagram that a flow's upstream has sent.
    pub fn on_upstream(&mut self, id: u64, datagram: &[u8])
        requires
            old(self).valid(),
        ensures
            final(self).valid(),
            final(self).h3() == old(self).h3(),
            final(self).h3_only() == old(self).h3_only(),
            final(self).next() == old(self).next(),
            final(self)@ == (match header::long_header(datagram@) {
                Some(h) => model::with_upstream_header(old(self)@, id, h),
                None => old(self)@,
            }),
    {
        let ghost m = self.flows@;
        match LongHeader::parse(datagram) {
            Some(h) => {
                self.flows.observe_upstream_header(id, &h);
                proof {
                    model::lemma_counts_change(m, self.flows@, id);
                }
            },
            None => {},
        }
    }

    /// The latest address of a flow's client.
    pub fn peer(&self, id: u64) -> (r: Option<SocketAddr>)
        ensures
            r == (if self@.contains_key(id) {
                Some(self@[id].peer)
            } else {
                None
            }),
    {
        self.flows.peer(id)
    }

    /// Whether the listener terminates HTTP/3.
    pub fn terminates_h3(&self) -> (r: bool)
        ensures
            r == self.h3(),
    {
        self.h3
    }
}

// ---------------------------------------------------------------------------
// Listener set-up
// ---------------------------------------------------------------------------

/// Whether a route terminates HTTP/3.
pub open spec fn is_h3(t: RouteType) -> bool {
    t == RouteType::H3 || t == RouteType::H3Ech
}

/// Whether some route terminates HTTP/3.
pub open spec fn any_h3(types: Seq<RouteType>) -> bool {
    exists|i: int| 0 <= i < types.len() && is_h3(#[trigger] types[i])
}

/// Whether every route terminates HTTP/3.
pub open spec fn all_h3(types: Seq<RouteType>) -> bool {
    forall|i: int| 0 <= i < types.len() ==> is_h3(#[trigger] types[i])
}

/// Whether a route terminates HTTP/3.
pub fn terminates(t: RouteType) -> (r: bool)
    ensures
        r == is_h3(t),
{
    match t {
        RouteType::H3 => true,
        RouteType::H3Ech => true,
        RouteType::Tls => false,
        RouteType::Ech => false,
        RouteType::Http => false,
        RouteType::Raw => false,
    }
}

/// Whether some route terminates HTTP/3, so that the listener needs an endpoint.
pub fn serves_h3(types: &Vec<RouteType>) -> (r: bool)
    ensures
        r == any_h3(types@),
{
    let mut i: usize = 0;
    while i < types.len()
        invariant
            i <= types@.len(),
            forall|k: int| 0 <= k < i ==> !is_h3(#[trigger] types@[k]),
        decreases types@.len() - i,
    {
        if terminates(types[i]) {
            assert(is_h3(types@[i as int]));
            return true;
        }
        i = i + 1;
    }
    false
}

/// Whether every route terminates HTTP/3, so that only Initial packets need
/// inspection.
pub fn serves_only_h3(types: &Vec<RouteType>) -> (r: bool)
    ensures
        r == all_h3(types@),
{
    let mut i: usize = 0;
    while i < types.len()
        invariant
            i <= types@.len(),
            forall|k: int| 0 <= k < i ==> is_h3(#[trigger] types@[k]),
        decreases types@.len() - i,
    {
        if !terminates(types[i]) {
            assert(!is_h3(types@[i as int]));
            return false;
        }
        i = i + 1;
    }
    true
}

/// The idle timeouts of the routes that terminate HTTP/3.
pub open spec fn h3_idles(routes: Seq<(RouteType, Duration)>) -> Seq<Duration>
    decreases routes.len(),
{
    if routes.len() == 0 {
        Seq::empty()
    } else {
        let rest = h3_idles(routes.drop_last());
        if is_h3(routes.last().0) {
            rest.push(routes.last().1)
        } else {
            rest
        }
    }
}

/// Whether `d` is the longest of a list.
pub open spec fn is_longest(list: Seq<Duration>, d: Duration) -> bool {
    list.contains(d) && forall|i: int| 0 <= i < list.len() ==> (#[trigger] list[i]).nanos <= d.nanos
}

/// Whether a list holds a zero.
pub open spec fn has_zero(list: Seq<Duration>) -> bool {
    exists|i: int| 0 <= i < list.len() && (#[trigger] list[i]).nanos == 0
}

proof fn lemma_h3_idles_zero(routes: Seq<(RouteType, Duration)>, i: int)
    requires
        0 <= i < routes.len(),
        is_h3(routes[i].0),
        routes[i].1.nanos == 0,
    ensures
        has_zero(h3_idles(routes)),
    decreases routes.len(),
{
    let rest = h3_idles(routes.drop_last());
    if i < routes.len() - 1 {
        assert(routes.drop_last()[i] == routes[i]);
        lemma_h3_idles_zero(routes.drop_last(), i);
        let k = choose|k: int| 0 <= k < rest.len() && (#[trigger] rest[k]).nanos == 0;
        assert(h3_idles(routes)[k].nanos == 0);
    } else {
        assert(h3_idles(routes)[rest.len() as int].nanos == 0);
    }
}

/// How long the shared endpoint lets a connection idle: as long as the most
/// patient of the routes that terminate HTTP/3, and without end if one of them
/// does so, or if there is none.
pub fn h3_transport_idle_timeout(routes: &Vec<(RouteType, Duration)>) -> (r: Option<Duration>)
    ensures
        match r {
            Some(d) => !has_zero(h3_idles(routes@)) && is_longest(h3_idles(routes@), d),
            None => has_zero(h3_idles(routes@)) || h3_idles(routes@).len() == 0,
        },
{
    let mut longest: Option<Duration> = None;
    let mut i: usize = 0;
    assert(h3_idles(routes@.take(0)) =~= Seq::<Duration>::empty());
    while i < routes.len()
        invariant
            i <= routes@.len(),
            !has_zero(h3_idles(routes@.take(i as int))),
            match longest {
                Some(d) => is_longest(h3_idles(routes@.take(i as int)), d),
                None => h3_idles(routes@.take(i as int)).len() == 0,
            },
        decreases routes@.len() - i,
    {
        let (route_type, idle) = routes[i];
        let ghost before = h3_idles(routes@.take(i as int));
        let ghost after = h3_idles(routes@.take(i + 1));
        proof {
            assert(routes@.take(i + 1).drop_last() =~= routes@.take(i as int));
            assert(routes@.take(i + 1).last() == routes@[i as int]);
        }
        if terminates(route_type) {
            if idle.is_zero() {
                proof {
                    lemma_h3_idles_zero(routes@, i as int);
                }
                return None;
            }
            assert(after == before.push(idle));
            assert(after[before.len() as int] == idle);
            longest = match longest {
                None => Some(idle),
                Some(current) => {
                    proof {
                        let k = choose|k: int| 0 <= k < before.len() && before[k] == current;
                        assert(after[k] == current);
                    }
                    if idle.nanos > current.nanos {
                        Some(idle)
                    } else {
                        Some(current)
                    }
                },
            };
            assert forall|k: int| 0 <= k < after.len() implies (#[trigger] after[k]).nanos != 0 by {
                if k < before.len() {
                    assert(before[k].nanos != 0);
                }
            }
        }
        i = i + 1;
    }
    assert(routes@.take(i as int) =~= routes@);
    longest
}

/// What a listener does with an incoming handshake.
#[derive(Debug, Clone, Copy, PartialEq, Eq, Structural)]
pub enum Handshake {
    Accept,
    /// Ask the client to prove its address and come back, or refuse if that
    /// cannot be asked.
    Retry,
    Refuse,
}

/// Decide on an incoming handshake: over capacity, a client whose address is
/// proved is refused, and any other is asked to prove it.
pub fn admit_handshake(permit: bool, address_validated: bool) -> (r: Handshake)
    ensures
        r == (if permit {
            Handshake::Accept
        } else if !address_validated {
            Handshake::Retry
        } else {
            Handshake::Refuse
        }),
{
    if permit {
        Handshake::Accept
    } else if !address_validated {
        Handshake::Retry
    } else {
        Handshake::Refuse
    }
}

/// Why an established connection is closed, if it is.
pub open spec fn close_reason_of(route: Option<usize>, types: Seq<RouteType>) -> Option<Seq<char>> {
    match route {
        None => Some("unmatched H3 SNI"@),
        Some(id) => if id >= types.len() {
            Some("invalid H3 route"@)
        } else if !is_h3(types[id as int]) {
            Some("route is not HTTP/3"@)
        } else {
            None
        },
    }
}

/// Decide on an established connection by the route that its server name leads
/// to: only routes that terminate HTTP/3 serve it.
pub fn close_reason(route: Option<usize>, types: &Vec<RouteType>) -> (r: Option<String>)
    ensures
        text::opt_text(r) == close_reason_of(route, types@),
{
    match route {
        None => Some("unmatched H3 SNI".to_owned()),
        Some(id) => {
            if id >= types.len() {
                Some("invalid H3 route".to_owned())
            } else if !terminates(types[id]) {
                Some("route is not HTTP/3".to_owned())
            } else {
                None
            }
        },
    }
}

/// The places of the routes whose failure policy a QUIC listener cannot honour,
/// beyond the one that the listener has itself.
pub open spec fn odd_policy(unmatched: FailPolicy, route: FailPolicy) -> bool {
    route != FailPolicy::Close && route != unmatched
}

/// Which failure policies a QUIC listener cannot honour, as it always fails
/// closed: whether the listener's own is one, and which routes add another.
pub fn unsupported_fail_policies(unmatched: FailPolicy, routes: &Vec<FailPolicy>) -> (r: (bool, Vec<usize>))
    ensures
        r.0 == (unmatched != FailPolicy::Close),
        forall|i: int|
            0 <= i < routes@.len() ==> (odd_policy(unmatched, #[trigger] routes@[i]) <==> r.1@.contains(i as usize)),
        forall|k: int| 0 <= k < r.1@.len() ==> #[trigger] r.1@[k] < routes@.len(),
        forall|j: int, k: int| 0 <= j < k < r.1@.len() ==> r.1@[j] < r.1@[k],
{
    let mut odd: Vec<usize> = Vec::new();
    let mut i: usize = 0;
    while i < routes.len()
        invariant
            i <= routes.len(),
            forall|k: int|
                0 <= k < i ==> (odd_policy(unmatched, #[trigger] routes@[k]) <==> odd@.contains(k as usize)),
            forall|k: int| 0 <= k < odd@.len() ==> #[trigger] odd@[k] < i,
            forall|j: int, k: int| 0 <= j < k < odd@.len() ==> odd@[j] < odd@[k],
        decreases routes@.len() - i,
    {
        let ghost before = odd@;
        if routes[i] != FailPolicy::Close && routes[i] != unmatched {
            odd.push(i);
            assert(odd@[before.len() as int] == i);
        }
        proof {
            assert forall|k: int| 0 <= k < i + 1 implies (odd_policy(unmatched, #[trigger] routes@[k])
                <==> odd@.contains(k as usize)) by {
                if k < i {
                    if before.contains(k as usize) {
                        let j = choose|j: int| 0 <= j < before.len() && before[j] == k as usize;
                        assert(odd@[j] == k as usize);
                    }
                    if odd@.contains(k as usize) {
                        let j = choose|j: int| 0 <= j < odd@.len() && odd@[j] == k as usize;
                        if j < before.len() {
                            assert(before[j] == k as usize);
                        }
                    }
                } else if odd@.contains(k as usize) {
                    let j = choose|j: int| 0 <= j < odd@.len() && odd@[j] == k as usize;
                    assert(j == before.len());
                }
            }
        }
        i = i + 1;
    }
    (unmatched != FailPolicy::Close, odd)
}

// ---------------------------------------------------------------------------
// Raw flows
// ---------------------------------------------------------------------------

/// The host that a raw flow is connected to: the route's, or the one that the
/// client has named.
pub open spec fn raw_host_of(upstream_host: Option<Seq<char>>, sni: Seq<char>) -> Option<Seq<char>> {
    match upstream_host {
        Some(host) => Some(host),
        None => if sni.len() > 0 {
            Some(sni)
        } else {
            None
        },
    }
}

/// Choose the host that a raw flow is connected to.
pub fn raw_host(upstream_host: &Option<String>, sni: &str, route: &str) -> (r: Result<String, String>)
    ensures
        match r {
            Ok(host) => raw_host_of(text::opt_text(*upstream_host), sni@) == Some(host@),
            Err(m) => raw_host_of(text::opt_text(*upstream_host), sni@) is None && m@ == "raw QUIC route "@ + route@
                + " reflects SNI but none was presented"@,
        },
{
    match upstream_host {
        Some(host) => Ok(host.clone()),
        None => {
            if sni.unicode_len() > 0 {
                Ok(sni.to_owned())
            } else {
                Err(text::concat3("raw QUIC route ", route, " reflects SNI but none was presented"))
            }
        },
    }
}

/// The local address to send from to an upstream: any, in the same family.
pub fn bind_addr(upstream: IpAddr) -> (r: SocketAddr)
    ensures
        r == net::socket(
            match upstream {
                IpAddr::V4(_) => IpAddr::V4(0),
                IpAddr::V6(_) => IpAddr::V6(0),
            },
            0,
        ),
{
    match upstream {
        IpAddr::V4(_) => SocketAddr::new(IpAddr::V4(0), 0),
        IpAddr::V6(_) => SocketAddr::new(IpAddr::V6(0), 0),
    }
}

/// A server name for logs.
pub fn display_sni(sni: &str) -> (r: &str)
    ensures
        r@ == (if sni@.len() == 0 {
            "<none>"@
        } else {
            sni@
        }),
{
    if sni.unicode_len() == 0 {
        "<none>"
    } else {
        sni
    }
}

// ---------------------------------------------------------------------------
// Laws
// ---------------------------------------------------------------------------

/// A datagram never costs a routed flow its place, nor changes anything of it but
/// the address of its client.
pub proof fn law_datagrams_spare_forwarding(
    m: FlowMap,
    next: u64,
    h3: bool,
    h3_only: bool,
    peer: SocketAddr,
    datagram: Seq<u8>,
    now: Instant,
    id: u64,
)
    requires
        m.dom().finite(),
        m.contains_key(id),
        m[id].state is Forwarding,
    ensures
        ({
            let after = dispatched(m, next, h3, h3_only, peer, datagram, now).0;
            &&& after.contains_key(id)
            &&& after[id].state is Forwarding
            &&& after[id].routing == m[id].routing
            &&& after[id].short == m[id].short
        }),
{
    let kept = model::pruned(m, now);
    model::law_pruning_spares_forwarding(m, now);
    assert(m.contains_key(id));
    assert(kept.contains_key(id) && kept[id] == m[id]);
    assert(kept.dom().finite()) by {
        assert(kept.dom().subset_of(m.dom()));
        vstd::set_lib::lemma_set_subset_finite(m.dom(), kept.dom());
    }
    model::law_pressure_spares_forwarding(kept);
    let roomy = model::made_room(kept);
    assert(roomy.contains_key(id) && roomy[id] == m[id]);
}

/// On a listener that terminates HTTP/3 only, nothing but an Initial packet
/// touches the flows.
pub proof fn law_h3_fast_path(
    m: FlowMap,
    next: u64,
    peer: SocketAddr,
    datagram: Seq<u8>,
    now: Instant,
)
    requires
        !header::starts_initial(datagram),
    ensures
        dispatched(m, next, true, true, peer, datagram, now) == (m, next, DispatchView::ToH3),
{
}

/// On a listener that terminates HTTP/3 at all, a datagram that starts no flow
/// and carries no known connection id goes to the endpoint, whoever sent it.
pub proof fn law_mixed_listener_leaves_strangers_to_h3(
    m: FlowMap,
    next: u64,
    h3_only: bool,
    peer: SocketAddr,
    datagram: Seq<u8>,
    now: Instant,
)
    requires
        !header::starts_initial(datagram),
        model::flow_of(model::pruned(m, now), peer, datagram, false) is None,
    ensures
        dispatched(m, next, true, h3_only, peer, datagram, now).2 == DispatchView::ToH3,
{
}

/// A datagram of a routed flow is forwarded on it, and its client's new address noted.
pub proof fn law_routed_flow_is_forwarded(
    m: FlowMap,
    next: u64,
    h3: bool,
    h3_only: bool,
    peer: SocketAddr,
    datagram: Seq<u8>,
    now: Instant,
    id: u64,
)
    requires
        header::starts_initial(datagram) || !h3_only,
        model::flow_of(model::pruned(m, now), peer, datagram, !h3) == Some(id),
        m.contains_key(id),
        m[id].state is Forwarding,
    ensures
        ({
            let (after, new_next, action) = dispatched(m, next, h3, h3_only, peer, datagram, now);
            &&& action == DispatchView::Forward { flow: id, moved: m[id].peer != peer }
            &&& after.contains_key(id) && after[id].peer == peer
            &&& new_next == next
        }),
{
    assert(model::pruned(m, now).contains_key(id));
}

/// A datagram that starts no flow and belongs to none goes to the HTTP/3 endpoint, or
/// nowhere if there is none; it costs no flow.
pub proof fn law_stranger_starts_nothing(
    m: FlowMap,
    next: u64,
    peer: SocketAddr,
    datagram: Seq<u8>,
    now: Instant,
)
    requires
        !header::starts_initial(datagram),
        model::flow_of(model::pruned(m, now), peer, datagram, true) is None,
    ensures
        dispatched(m, next, false, false, peer, datagram, now) == (
            model::pruned(m, now),
            next,
            DispatchView::Drop(DropReason::UnknownFlow),
        ),
{
}

/// An Initial that belongs to no flow starts one under the next id, of its client, and
/// is dropped only where there is no room for it.
pub proof fn law_initial_starts_a_flow(
    m: FlowMap,
    next: u64,
    h3: bool,
    peer: SocketAddr,
    datagram: Seq<u8>,
    now: Instant,
)
    requires
        header::starts_initial(datagram),
        model::flow_of(model::pruned(m, now), peer, datagram, !h3) is None,
        model::has_room(model::made_room(model::pruned(m, now))),
        !model::made_room(model::pruned(m, now)).contains_key(next),
    ensures
        ({
            let (after, new_next, action) = dispatched(m, next, h3, false, peer, datagram, now);
            &&& new_next == model::id_after(next)
            &&& action is Kept ==> after.contains_key(next) && after[next].peer == peer && after[next].state is Inspecting
            &&& action matches DispatchView::Route { flow, sni, packets } ==> flow == next && packets == seq![datagram]
                && after.contains_key(next)
            &&& action is Drop ==> !after.contains_key(next)
            &&& action is ToH3 ==> h3 && !after.contains_key(next)
        }),
{
    let roomy = model::made_room(model::pruned(m, now));
    let dcid = header::long_header(datagram)->0.dcid;
    let flow = model::new_flow(peer, now, Some(dcid));
    let v = flow.state->Inspecting_0;
    model::law_buffered_datagrams_are_handed_over(v, datagram, now);
    assert(v.packets.push(datagram) =~= seq![datagram]);
    assert(model::with_peer(roomy.insert(next, flow), next, peer)[next].state == flow.state);
}

/// A flow goes where its route's type sends it: a raw one to its upstream, an HTTP/3 one
/// to the endpoint if there is one; the types of TCP listeners have no QUIC form.
pub proof fn law_route_type_decides(h3: bool)
    ensures
        route_action(None, h3) == RouteAction::Unmatched,
        route_action(Some(RouteType::Raw), h3) == RouteAction::StartRaw,
        route_action(Some(RouteType::H3), true) == RouteAction::ToH3,
        route_action(Some(RouteType::H3Ech), true) == RouteAction::ToH3,
        route_action(Some(RouteType::H3), false) == RouteAction::NoH3Endpoint,
        route_action(Some(RouteType::H3Ech), false) == RouteAction::NoH3Endpoint,
        route_action(Some(RouteType::Tls), h3) == RouteAction::NotQuic,
        route_action(Some(RouteType::Ech), h3) == RouteAction::NotQuic,
        route_action(Some(RouteType::Http), h3) == RouteAction::NotQuic,
{
}

/// A raw flow is connected, for its own client, exactly where it got everything it needs
/// and is still there.
pub proof fn law_raw_flow_needs_every_permit(m: FlowMap, id: u64, p: RawPermits)
    ensures
        raw_admission(m, id, p) is Ok <==> p.flow && p.connect && p.bytes && m.contains_key(id),
        raw_admission(m, id, p) matches Ok(peer) ==> peer == m[id].peer,
        !p.flow ==> raw_admission(m, id, p) == Err::<SocketAddr, RawRefusal>(RawRefusal::Flows),
        p.flow && !p.connect ==> raw_admission(m, id, p) == Err::<SocketAddr, RawRefusal>(RawRefusal::Connects),
        p.flow && p.connect && !p.bytes ==> raw_admission(m, id, p) == Err::<SocketAddr, RawRefusal>(
            RawRefusal::Bytes,
        ),
{
}

/// A raw flow is connected to the route's host, else to the one that the client named.
pub proof fn law_raw_flow_goes_to_the_routes_host(host: Seq<char>, sni: Seq<char>)
    ensures
        raw_host_of(Some(host), sni) == Some(host),
        sni.len() > 0 ==> raw_host_of(None, sni) == Some(sni),
        raw_host_of(None, Seq::empty()) is None,
{
}

/// An established connection stays open exactly where its route exists and terminates
/// HTTP/3.
pub proof fn law_only_h3_routes_serve(route: Option<usize>, types: Seq<RouteType>)
    ensures
        close_reason_of(route, types) is None <==> {
            &&& route matches Some(id)
            &&& id < types.len()
            &&& types[id as int] == RouteType::H3 || types[id as int] == RouteType::H3Ech
        },
{
}

/// A QUIC listener can honour no policy but closing; a route's is reported unless it says
/// no more than the listener's.
pub proof fn law_only_closing_is_honoured(unmatched: FailPolicy, route: FailPolicy)
    ensures
        !odd_policy(unmatched, FailPolicy::Close),
        !odd_policy(route, route),
        route != FailPolicy::Close && route != unmatched ==> odd_policy(unmatched, route),
{
}

proof fn lemma_h3_idles_of(routes: Seq<(RouteType, Duration)>, d: Duration)
    ensures
        h3_idles(routes).contains(d) <==> exists|i: int|
            0 <= i < routes.len() && (#[trigger] routes[i]).1 == d && (routes[i].0 == RouteType::H3 || routes[i].0
                == RouteType::H3Ech),
    decreases routes.len(),
{
    if routes.len() > 0 {
        let front = routes.drop_last();
        let rest = h3_idles(front);
        let all = h3_idles(routes);
        lemma_h3_idles_of(front, d);
        if rest.contains(d) {
            let k = choose|k: int| 0 <= k < rest.len() && rest[k] == d;
            assert(all[k] == d);
            let i = choose|i: int|
                0 <= i < front.len() && (#[trigger] front[i]).1 == d && (front[i].0 == RouteType::H3 || front[i].0
                    == RouteType::H3Ech);
            assert(routes[i] == front[i]);
        }
        if is_h3(routes.last().0) && routes.last().1 == d {
            assert(all[rest.len() as int] == d);
            assert(routes[routes.len() - 1].1 == d);
        }
        if all.contains(d) {
            let k = choose|k: int| 0 <= k < all.len() && all[k] == d;
            if k < rest.len() {
                assert(rest[k] == d);
            }
        }
        if exists|i: int|
            0 <= i < routes.len() && (#[trigger] routes[i]).1 == d && (routes[i].0 == RouteType::H3 || routes[i].0
                == RouteType::H3Ech) {
            let i = choose|i: int|
                0 <= i < routes.len() && (#[trigger] routes[i]).1 == d && (routes[i].0 == RouteType::H3 || routes[i].0
                    == RouteType::H3Ech);
            if i < routes.len() - 1 {
                assert(front[i] == routes[i]);
            }
        }
    }
}

/// The endpoint is as patient as its most patient route: a longest timeout is that of some
/// HTTP/3 route, and none of them has a longer one; where one has none at all, the list
/// of their timeouts has a zero.
pub proof fn law_endpoint_is_as_patient_as_its_routes(routes: Seq<(RouteType, Duration)>, d: Duration, i: int)
    requires
        0 <= i < routes.len(),
        routes[i].0 == RouteType::H3 || routes[i].0 == RouteType::H3Ech,
    ensures
        is_longest(h3_idles(routes), d) ==> routes[i].1.nanos <= d.nanos,
        is_longest(h3_idles(routes), d) ==> exists|k: int|
            0 <= k < routes.len() && (#[trigger] routes[k]).1 == d && (routes[k].0 == RouteType::H3 || routes[k].0
                == RouteType::H3Ech),
        (forall|k: int|
            0 <= k < routes.len() && ((#[trigger] routes[k]).0 == RouteType::H3 || routes[k].0 == RouteType::H3Ech)
                ==> routes[k].1.nanos <= routes[i].1.nanos) ==> is_longest(h3_idles(routes), routes[i].1),
        has_zero(h3_idles(routes)) <==> exists|k: int|
            0 <= k < routes.len() && (#[trigger] routes[k]).1.nanos == 0 && (routes[k].0 == RouteType::H3 || routes[k].0
                == RouteType::H3Ech),
{
    let list = h3_idles(routes);
    lemma_h3_idles_of(routes, routes[i].1);
    lemma_h3_idles_of(routes, d);
    let at = choose|at: int| 0 <= at < list.len() && list[at] == routes[i].1;
    assert(list[at] == routes[i].1);
    if forall|k: int|
        0 <= k < routes.len() && ((#[trigger] routes[k]).0 == RouteType::H3 || routes[k].0 == RouteType::H3Ech)
            ==> routes[k].1.nanos <= routes[i].1.nanos {
        assert forall|x: int| 0 <= x < list.len() implies (#[trigger] list[x]).nanos <= routes[i].1.nanos by {
            lemma_h3_idles_of(routes, list[x]);
        }
    }
    if has_zero(list) {
        let x = choose|x: int| 0 <= x < list.len() && (#[trigger] list[x]).nanos == 0;
        lemma_h3_idles_of(routes, list[x]);
    }
    if exists|k: int|
        0 <= k < routes.len() && (#[trigger] routes[k]).1.nanos == 0 && (routes[k].0 == RouteType::H3 || routes[k].0
            == RouteType::H3Ech) {
        let k = choose|k: int|
            0 <= k < routes.len() && (#[trigger] routes[k]).1.nanos == 0 && (routes[k].0 == RouteType::H3 || routes[k].0
                == RouteType::H3Ech);
        lemma_h3_idles_zero(routes, k);
    }
}

} // verus!
