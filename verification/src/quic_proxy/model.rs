//! What a flow table holds, as a map from flow ids to flows, and what each
//! operation does to it.

use super::header;
use super::header::{HeaderView, MAX_CID_LEN};
use super::index;
use crate::net::SocketAddr;
use crate::quic_initial::{CryptoStream, SniAnswer};
use crate::time::Instant;
use vstd::prelude::*;

verus! {

/// The most datagrams a flow may buffer before it is routed.
pub const MAX_INITIAL_DATAGRAMS: usize = 8;

/// The most bytes a flow may buffer before it is routed.
pub const MAX_INITIAL_BYTES: usize = 32768;

/// The most flows.
pub const MAX_FLOWS: usize = 4096;

/// The most flows that are not routed yet.
pub const MAX_INSPECTING_FLOWS: usize = 256;

/// The most bytes that flows which are not routed yet may hold together.
pub const MAX_INSPECTION_BYTES: usize = 8388608;

/// The most connection ids that a flow may be known by.
pub const MAX_CIDS_PER_FLOW: usize = 32;

/// How many deadlines may pile up before the outdated ones are dropped.
pub const MAX_INSPECTION_DEADLINE_ENTRIES: usize = 1024;

/// How long a flow may stay unrouted without activity, in nanoseconds.
pub const INITIAL_INSPECTION_TIMEOUT_NANOS: u128 = 10000000000;

/// The state of a flow that is not routed yet.
pub struct InspectView {
    /// The reassembled handshake bytes.
    pub stream: CryptoStream,
    /// The buffered datagrams.
    pub packets: Seq<Seq<u8>>,
    pub last_activity: Instant,
    /// How often activity has been seen, wrapping around.
    pub generation: u64,
}

/// The state of a flow.
pub enum StateView {
    Inspecting(InspectView),
    Forwarding,
}

/// One flow.
pub struct FlowView {
    /// The client's address.
    pub peer: SocketAddr,
    /// The connection ids by which long headers find the flow.
    pub routing: Seq<Seq<u8>>,
    /// Those by which short headers find it too.
    pub short: Seq<Seq<u8>>,
    pub state: StateView,
}

/// When a flow that is not routed yet runs out of time.
#[derive(Debug, Clone, Copy, PartialEq, Eq, Structural)]
pub struct Deadline {
    pub at: Instant,
    pub id: u64,
    pub generation: u64,
}

impl Deadline {
    /// Whether this deadline comes before, or is the same as, another: by time,
    /// then by flow, then by generation.
    pub open spec fn not_after(self, other: Self) -> bool {
        ||| self.at.nanos < other.at.nanos
        ||| self.at.nanos == other.at.nanos && self.id < other.id
        ||| self.at.nanos == other.at.nanos && self.id == other.id && self.generation <= other.generation
    }
}

/// The number of bytes in a list of datagrams.
pub open spec fn total_len(packets: Seq<Seq<u8>>) -> nat
    decreases packets.len(),
{
    if packets.len() == 0 {
        0
    } else {
        total_len(packets.drop_last()) + packets.last().len()
    }
}

impl InspectView {
    /// A flow that has just been seen.
    pub open spec fn fresh(now: Instant) -> Self {
        InspectView { stream: CryptoStream::empty(), packets: Seq::empty(), last_activity: now, generation: 0 }
    }

    /// How many bytes the flow holds.
    pub open spec fn retained(self) -> nat {
        total_len(self.packets) + self.stream.retained
    }

    /// The bounds that every such flow keeps.
    pub open spec fn bounded(self) -> bool {
        &&& self.packets.len() <= MAX_INITIAL_DATAGRAMS
        &&& total_len(self.packets) <= MAX_INITIAL_BYTES
        &&& self.stream.bounded()
        &&& self.last_activity.valid()
    }

    /// When the flow runs out of time.
    pub open spec fn deadline(self, id: u64) -> Deadline {
        Deadline {
            at: Instant { nanos: (self.last_activity.nanos + INITIAL_INSPECTION_TIMEOUT_NANOS) as u128 },
            id,
            generation: self.generation,
        }
    }

    /// Whether there is room for another datagram.
    pub open spec fn accepts(self, datagram: Seq<u8>) -> bool {
        self.packets.len() < MAX_INITIAL_DATAGRAMS && total_len(self.packets) + datagram.len() <= MAX_INITIAL_BYTES
    }

    /// The flow after another datagram, and what is known of the server name
    /// then. A datagram without room changes nothing. Once the name is settled
    /// the buffered datagrams are handed over.
    pub open spec fn with_datagram(self, datagram: Seq<u8>, now: Instant) -> (Self, InspectAnswer) {
        if !self.accepts(datagram) {
            (self, InspectAnswer::Invalid)
        } else {
            let (stream, ok) = self.stream.with_packets(datagram, 0);
            let packets = self.packets.push(datagram);
            let generation = if self.generation == u64::MAX {
                0
            } else {
                (self.generation + 1) as u64
            };
            let kept = InspectView { stream, packets, last_activity: now, generation };
            let released = InspectView {
                stream: CryptoStream::empty(),
                packets: Seq::empty(),
                last_activity: now,
                generation,
            };
            if !ok {
                (kept, InspectAnswer::Invalid)
            } else {
                match stream.answer() {
                    SniAnswer::NeedMore => (kept, InspectAnswer::NeedMore),
                    SniAnswer::Invalid => (kept, InspectAnswer::Invalid),
                    SniAnswer::Name(sni) => (released, InspectAnswer::Routed { sni, packets }),
                    SniAnswer::NoSni => (released, InspectAnswer::Routed { sni: Seq::empty(), packets }),
                }
            }
        }
    }
}

/// What inspecting a datagram brought.
pub enum InspectAnswer {
    NeedMore,
    Invalid,
    Routed { sni: Seq<char>, packets: Seq<Seq<u8>> },
}

impl FlowView {
    /// The flow after it has become known by `cid`. Connection ids that are empty
    /// or too long are ignored, and so are new ones once the flow has enough.
    pub open spec fn with_cid(self, cid: Seq<u8>, short_header: bool) -> Self {
        if cid.len() == 0 || cid.len() > MAX_CID_LEN {
            self
        } else if !self.routing.contains(cid) && self.routing.len() >= MAX_CIDS_PER_FLOW {
            self
        } else {
            FlowView {
                routing: if self.routing.contains(cid) {
                    self.routing
                } else {
                    self.routing.push(cid)
                },
                short: if !short_header || self.short.contains(cid) {
                    self.short
                } else {
                    self.short.push(cid)
                },
                ..self
            }
        }
    }

    /// The bounds that every flow keeps.
    pub open spec fn bounded(self) -> bool {
        &&& self.routing.len() <= MAX_CIDS_PER_FLOW
        &&& self.routing.no_duplicates()
        &&& self.short.no_duplicates()
        &&& forall|c: Seq<u8>| #[trigger] self.routing.contains(c) ==> 0 < c.len() <= MAX_CID_LEN
        &&& forall|c: Seq<u8>| #[trigger] self.short.contains(c) ==> self.routing.contains(c)
        &&& self.state matches StateView::Inspecting(v) ==> v.bounded()
    }
}

/// The flows of a table, by id.
pub type FlowMap = Map<u64, FlowView>;

/// Which flows long headers find by which connection id.
pub open spec fn routing_rel(m: FlowMap) -> Set<(Seq<u8>, u64)> {
    Set::new(|p: (Seq<u8>, u64)| m.contains_key(p.1) && m[p.1].routing.contains(p.0))
}

/// Which flows short headers find by which connection id.
pub open spec fn short_rel(m: FlowMap) -> Set<(Seq<u8>, u64)> {
    Set::new(|p: (Seq<u8>, u64)| m.contains_key(p.1) && m[p.1].short.contains(p.0))
}

/// Which flows belong to which client address.
pub open spec fn peer_rel(m: FlowMap) -> Set<(SocketAddr, u64)> {
    Set::new(|p: (SocketAddr, u64)| m.contains_key(p.1) && m[p.1].peer == p.0)
}

/// Whether a flow is not routed yet.
pub open spec fn inspecting(m: FlowMap, id: u64) -> bool {
    m.contains_key(id) && m[id].state is Inspecting
}

/// The deadline of a flow that is not routed yet.
pub open spec fn deadline_of(m: FlowMap, id: u64) -> Deadline {
    m[id].state->Inspecting_0.deadline(id)
}

/// The sum of `weight` over the first `n` numbers.
pub open spec fn sum_below(weight: spec_fn(int) -> nat, n: nat) -> nat
    decreases n,
{
    if n == 0 {
        0
    } else {
        sum_below(weight, (n - 1) as nat) + weight(n - 1)
    }
}

/// How many flow ids there are.
pub open spec fn id_space() -> nat {
    0x10000000000000000
}

/// 1 for a flow that is not routed yet.
pub open spec fn inspecting_weight(m: FlowMap) -> spec_fn(int) -> nat {
    |k: int|
        if 0 <= k < id_space() && inspecting(m, k as u64) {
            1nat
        } else {
            0nat
        }
}

/// The bytes held by a flow that is not routed yet.
pub open spec fn retained_weight(m: FlowMap) -> spec_fn(int) -> nat {
    |k: int|
        if 0 <= k < id_space() && inspecting(m, k as u64) {
            m[k as u64].state->Inspecting_0.retained()
        } else {
            0nat
        }
}

/// How many flows are not routed yet.
pub open spec fn inspecting_count(m: FlowMap) -> nat {
    sum_below(inspecting_weight(m), id_space())
}

/// How many bytes those flows hold together.
pub open spec fn inspection_bytes(m: FlowMap) -> nat {
    sum_below(retained_weight(m), id_space())
}

proof fn lemma_sum_same(w1: spec_fn(int) -> nat, w2: spec_fn(int) -> nat, n: nat)
    requires
        forall|i: int| 0 <= i < n ==> #[trigger] w1(i) == w2(i),
    ensures
        sum_below(w1, n) == sum_below(w2, n),
    decreases n,
{
    if n > 0 {
        lemma_sum_same(w1, w2, (n - 1) as nat);
    }
}

proof fn lemma_sum_update(w1: spec_fn(int) -> nat, w2: spec_fn(int) -> nat, k: int, n: nat)
    requires
        0 <= k < n,
        forall|i: int| 0 <= i < n && i != k ==> #[trigger] w1(i) == w2(i),
    ensures
        sum_below(w1, n) + w2(k) == sum_below(w2, n) + w1(k),
        sum_below(w1, n) >= w1(k),
    decreases n,
{
    if k == n - 1 {
        lemma_sum_same(w1, w2, (n - 1) as nat);
    } else {
        lemma_sum_update(w1, w2, k, (n - 1) as nat);
    }
}

/// What changing one flow does to the counts.
pub proof fn lemma_counts_change(before: FlowMap, after: FlowMap, id: u64)
    requires
        forall|k: u64| k != id ==> before.contains_key(k) == #[trigger] after.contains_key(k),
        forall|k: u64| k != id && #[trigger] after.contains_key(k) ==> before[k] == after[k],
    ensures
        inspecting_count(before) + inspecting_weight(after)(id as int) == inspecting_count(after)
            + inspecting_weight(before)(id as int),
        inspection_bytes(before) + retained_weight(after)(id as int) == inspection_bytes(after) + retained_weight(
            before,
        )(id as int),
        inspecting_count(before) >= inspecting_weight(before)(id as int),
        inspection_bytes(before) >= retained_weight(before)(id as int),
{
    assert forall|i: int| 0 <= i < id_space() && i != id implies #[trigger] inspecting_weight(before)(i) == inspecting_weight(
        after,
    )(i) by {
        assert(before.contains_key(i as u64) == after.contains_key(i as u64));
    }
    assert forall|i: int| 0 <= i < id_space() && i != id implies #[trigger] retained_weight(before)(i)
        == retained_weight(after)(i) by {
        assert(before.contains_key(i as u64) == after.contains_key(i as u64));
    }
    lemma_sum_update(inspecting_weight(before), inspecting_weight(after), id as int, id_space());
    lemma_sum_update(retained_weight(before), retained_weight(after), id as int, id_space());
}

proof fn lemma_sum_zero(w: spec_fn(int) -> nat, n: nat)
    requires
        forall|i: int| 0 <= i < n ==> #[trigger] w(i) == 0,
    ensures
        sum_below(w, n) == 0,
    decreases n,
{
    if n > 0 {
        lemma_sum_zero(w, (n - 1) as nat);
    }
}

/// A table without flows counts nothing.
pub proof fn lemma_empty_counts()
    ensures
        inspecting_count(Map::<u64, FlowView>::empty()) == 0,
        inspection_bytes(Map::<u64, FlowView>::empty()) == 0,
{
    let m = Map::<u64, FlowView>::empty();
    lemma_sum_zero(inspecting_weight(m), id_space());
    lemma_sum_zero(retained_weight(m), id_space());
}

// ---------------------------------------------------------------------------
// Lookup
// ---------------------------------------------------------------------------

/// The connection id that a short header would carry if it had `n` bytes.
pub open spec fn short_cid(datagram: Seq<u8>, n: int) -> Seq<u8> {
    datagram.subrange(1, 1 + n)
}

/// Whether a datagram's first bytes are a connection id by which short headers
/// find the flow.
pub open spec fn short_match(m: FlowMap, datagram: Seq<u8>, id: u64) -> bool {
    exists|n: int|
        1 <= n <= MAX_CID_LEN && n < datagram.len() && #[trigger] short_rel(m).contains(
            (short_cid(datagram, n), id),
        )
}

/// Whether `id` is the one flow that a short header finds.
pub open spec fn is_short_owner(m: FlowMap, datagram: Seq<u8>, id: u64) -> bool {
    &&& datagram.len() > 1
    &&& datagram[0] < 0x80
    &&& short_match(m, datagram, id)
    &&& forall|x: u64| #[trigger] short_match(m, datagram, x) ==> x == id
}

/// The one flow that a short header finds, whatever its connection id's length.
pub open spec fn short_owner(m: FlowMap, datagram: Seq<u8>) -> Option<u64> {
    if exists|id: u64| is_short_owner(m, datagram, id) {
        Some(choose|id: u64| is_short_owner(m, datagram, id))
    } else {
        None
    }
}

/// The one flow that a connection id belongs to.
pub open spec fn cid_owner(m: FlowMap, cid: Seq<u8>) -> Option<u64> {
    if cid.len() == 0 {
        None
    } else {
        index::sole_owner(routing_rel(m), cid)
    }
}

/// Whether a datagram begins like a short header.
pub open spec fn has_short_form(datagram: Seq<u8>) -> bool {
    datagram.len() > 0 && datagram[0] < 0x80
}

/// The flow that a datagram belongs to. A long header goes by its destination
/// connection id alone, if it can be read; a short header goes by its connection
/// id, and only failing that, where it is allowed, by the client's address.
pub open spec fn flow_of(m: FlowMap, peer: SocketAddr, datagram: Seq<u8>, allow_peer_fallback: bool) -> Option<u64> {
    match header::long_header(datagram) {
        Some(header) => cid_owner(m, header.dcid),
        None => match short_owner(m, datagram) {
            Some(id) => Some(id),
            None => if allow_peer_fallback && has_short_form(datagram) {
                index::sole_owner(peer_rel(m), peer)
            } else {
                None
            },
        },
    }
}

// ---------------------------------------------------------------------------
// Changes
// ---------------------------------------------------------------------------

/// A flow that has just been seen, known by the client's first connection id.
pub open spec fn new_flow(peer: SocketAddr, now: Instant, dcid: Option<Seq<u8>>) -> FlowView {
    let bare = FlowView {
        peer,
        routing: Seq::empty(),
        short: Seq::empty(),
        state: StateView::Inspecting(InspectView::fresh(now)),
    };
    match dcid {
        Some(cid) => bare.with_cid(cid, false),
        None => bare,
    }
}

/// The id behind `id`: 0 is never used.
pub open spec fn id_after(id: u64) -> u64 {
    if id == u64::MAX {
        1
    } else {
        (id + 1) as u64
    }
}

/// The table after a server's long header has been seen on a flow. A Version
/// Negotiation header echoes the client's own connection id and teaches nothing.
pub open spec fn with_upstream_header(m: FlowMap, id: u64, header: HeaderView) -> FlowMap {
    if header.version == 0 || !m.contains_key(id) {
        m
    } else {
        m.insert(id, m[id].with_cid(header.scid, true))
    }
}

/// The table after a flow has been reached from `peer`.
pub open spec fn with_peer(m: FlowMap, id: u64, peer: SocketAddr) -> FlowMap {
    if m.contains_key(id) {
        m.insert(id, FlowView { peer, ..m[id] })
    } else {
        m
    }
}

/// Whether a flow has run out of time.
pub open spec fn stale(m: FlowMap, id: u64, now: Instant) -> bool {
    inspecting(m, id) && deadline_of(m, id).at.nanos <= now.nanos
}

/// The table without the flows that have run out of time.
pub open spec fn pruned(m: FlowMap, now: Instant) -> FlowMap {
    Map::new(|id: u64| m.contains_key(id) && !stale(m, id, now), |id: u64| m[id])
}

/// Whether a flow is the one of those not routed yet that runs out of time first.
pub open spec fn is_oldest(m: FlowMap, id: u64) -> bool {
    &&& inspecting(m, id)
    &&& forall|x: u64| #[trigger] inspecting(m, x) ==> deadline_of(m, id).not_after(deadline_of(m, x))
}

/// The flow that gives way first.
pub open spec fn oldest(m: FlowMap) -> Option<u64> {
    if exists|id: u64| is_oldest(m, id) {
        Some(choose|id: u64| is_oldest(m, id))
    } else {
        None
    }
}

/// There is at most one oldest flow.
pub proof fn lemma_oldest_is_unique(m: FlowMap, a: u64, b: u64)
    requires
        is_oldest(m, a),
        is_oldest(m, b),
    ensures
        a == b,
{
    assert(inspecting(m, a) && inspecting(m, b));
    assert(deadline_of(m, a).not_after(deadline_of(m, b)));
    assert(deadline_of(m, b).not_after(deadline_of(m, a)));
    assert(deadline_of(m, a).id == a && deadline_of(m, b).id == b);
}

/// Whether there is room for a flow that is not routed yet.
pub open spec fn has_room(m: FlowMap) -> bool {
    m.len() < MAX_FLOWS && inspecting_count(m) < MAX_INSPECTING_FLOWS && inspection_bytes(m) < MAX_INSPECTION_BYTES
}

/// The table after the oldest unrouted flows have given way until there is room,
/// or until none is left.
pub open spec fn made_room(m: FlowMap) -> FlowMap
    decreases m.len(),
{
    if has_room(m) || !m.dom().finite() {
        m
    } else {
        match oldest(m) {
            Some(id) => if m.contains_key(id) {
                made_room(m.remove(id))
            } else {
                m
            },
            None => m,
        }
    }
}

/// The table after a datagram has been inspected on a flow.
pub open spec fn with_inspected(m: FlowMap, id: u64, datagram: Seq<u8>, now: Instant) -> (FlowMap, InspectAnswer) {
    if !inspecting(m, id) {
        (m, InspectAnswer::Invalid)
    } else {
        let (flow, answer) = m[id].state->Inspecting_0.with_datagram(datagram, now);
        (m.insert(id, FlowView { state: StateView::Inspecting(flow), ..m[id] }), answer)
    }
}

/// The table after a flow has been routed.
pub open spec fn with_promoted(m: FlowMap, id: u64) -> FlowMap {
    if m.contains_key(id) {
        m.insert(id, FlowView { state: StateView::Forwarding, ..m[id] })
    } else {
        m
    }
}

proof fn lemma_sum_not_more(w1: spec_fn(int) -> nat, w2: spec_fn(int) -> nat, n: nat)
    requires
        forall|i: int| 0 <= i < n ==> #[trigger] w1(i) <= w2(i),
    ensures
        sum_below(w1, n) <= sum_below(w2, n),
    decreases n,
{
    if n > 0 {
        lemma_sum_not_more(w1, w2, (n - 1) as nat);
    }
}

/// Whether every flow of `part` is a flow of `whole`, unchanged.
pub open spec fn part_of(part: FlowMap, whole: FlowMap) -> bool {
    forall|id: u64| #[trigger] part.contains_key(id) ==> whole.contains_key(id) && part[id] == whole[id]
}

/// Fewer flows hold fewer bytes.
pub proof fn lemma_part_counts(part: FlowMap, whole: FlowMap)
    requires
        part_of(part, whole),
    ensures
        inspecting_count(part) <= inspecting_count(whole),
        inspection_bytes(part) <= inspection_bytes(whole),
{
    assert forall|i: int| 0 <= i < id_space() implies #[trigger] inspecting_weight(part)(i) <= inspecting_weight(
        whole,
    )(i) by {
        if inspecting(part, i as u64) {
            assert(part.contains_key(i as u64));
        }
    }
    assert forall|i: int| 0 <= i < id_space() implies #[trigger] retained_weight(part)(i) <= retained_weight(
        whole,
    )(i) by {
        if inspecting(part, i as u64) {
            assert(part.contains_key(i as u64));
        }
    }
    lemma_sum_not_more(inspecting_weight(part), inspecting_weight(whole), id_space());
    lemma_sum_not_more(retained_weight(part), retained_weight(whole), id_space());
}

/// Among finitely many flows, if one is not routed yet, there is an oldest one.
proof fn lemma_oldest_exists(m: FlowMap, id: u64)
    requires
        m.dom().finite(),
        inspecting(m, id),
    ensures
        exists|x: u64| is_oldest(m, x),
    decreases m.len(),
{
    if !is_oldest(m, id) {
        let earlier = choose|x: u64| #[trigger] inspecting(m, x) && !deadline_of(m, id).not_after(deadline_of(m, x));
        let rest = m.remove(id);
        assert(earlier != id);
        assert(inspecting(rest, earlier));
        assert(rest.len() < m.len());
        lemma_oldest_exists(rest, earlier);
        let first = choose|x: u64| is_oldest(rest, x);
        assert(is_oldest(rest, first));
        assert forall|x: u64| #[trigger] inspecting(m, x) implies deadline_of(m, first).not_after(deadline_of(m, x)) by {
            if x != id {
                assert(inspecting(rest, x));
            }
            assert(deadline_of(rest, first).not_after(deadline_of(rest, earlier)));
        }
        assert(inspecting(rest, first));
        assert(inspecting(m, first));
        assert(is_oldest(m, first));
    }
}

// ---------------------------------------------------------------------------
// Laws
// ---------------------------------------------------------------------------

/// Pressure never costs a routed flow: making room changes no flow, gives up
/// only flows that are not routed yet, and gives up all of those before it
/// fails.
pub proof fn law_pressure_spares_forwarding(m: FlowMap)
    requires
        m.dom().finite(),
    ensures
        part_of(made_room(m), m),
        made_room(m).dom().finite(),
        forall|id: u64| #[trigger] m.contains_key(id) && m[id].state is Forwarding ==> made_room(m).contains_key(id),
        !has_room(made_room(m)) ==> forall|id: u64| !#[trigger] inspecting(made_room(m), id),
    decreases m.len(),
{
    if !has_room(m) {
        match oldest(m) {
            Some(id) => {
                assert(is_oldest(m, id));
                assert(m.contains_key(id));
                let rest = m.remove(id);
                assert(rest.dom().finite() && rest.len() < m.len());
                law_pressure_spares_forwarding(rest);
                assert forall|x: u64| #[trigger] m.contains_key(x) && m[x].state is Forwarding implies made_room(
                    m,
                ).contains_key(x) by {
                    assert(rest.contains_key(x));
                }
                assert forall|x: u64| #[trigger] made_room(m).contains_key(x) implies m.contains_key(x)
                    && made_room(m)[x] == m[x] by {
                    assert(rest.contains_key(x));
                }
            },
            None => {
                assert forall|x: u64| !#[trigger] inspecting(m, x) by {
                    if inspecting(m, x) {
                        lemma_oldest_exists(m, x);
                    }
                }
            },
        }
    }
}

/// Running out of time never costs a routed flow, and changes no other.
pub proof fn law_pruning_spares_forwarding(m: FlowMap, now: Instant)
    ensures
        part_of(pruned(m, now), m),
        forall|id: u64| #[trigger] m.contains_key(id) && m[id].state is Forwarding ==> pruned(m, now).contains_key(id),
{
}

/// A long header is never attributed by the client's address, not even one that
/// cannot be read: neither the address nor the permission to fall back to it
/// matters.
pub proof fn law_long_header_ignores_the_address(m: FlowMap, a: SocketAddr, b: SocketAddr, datagram: Seq<u8>)
    requires
        !has_short_form(datagram),
    ensures
        flow_of(m, a, datagram, true) == flow_of(m, b, datagram, false),
{
}

/// Where the address may not be used, it does not matter for any datagram.
pub proof fn law_no_fallback_ignores_the_address(m: FlowMap, a: SocketAddr, b: SocketAddr, datagram: Seq<u8>)
    ensures
        flow_of(m, a, datagram, false) == flow_of(m, b, datagram, false),
{
}

/// The connection id that the client chose itself is never one by which short
/// headers find the flow.
pub proof fn law_client_cid_is_not_for_short_headers(peer: SocketAddr, now: Instant, dcid: Seq<u8>)
    ensures
        new_flow(peer, now, Some(dcid)).short == Seq::<Seq<u8>>::empty(),
{
}

/// Version Negotiation teaches nothing.
pub proof fn law_version_negotiation_teaches_nothing(m: FlowMap, id: u64, header: HeaderView)
    requires
        header.version == 0,
    ensures
        with_upstream_header(m, id, header) == m,
{
}

/// A flow never learns more connection ids than it may have.
pub proof fn law_learned_cids_are_bounded(m: FlowMap, id: u64, header: HeaderView)
    requires
        m.contains_key(id),
        m[id].routing.len() <= MAX_CIDS_PER_FLOW,
    ensures
        with_upstream_header(m, id, header)[id].routing.len() <= MAX_CIDS_PER_FLOW,
{
}

/// A server-issued connection id that no other flow has leads back to the flow
/// it was issued on, from whichever address the client sends.
pub proof fn law_server_cid_finds_its_flow(
    m: FlowMap,
    id: u64,
    learned: HeaderView,
    peer: SocketAddr,
    datagram: Seq<u8>,
    fallback: bool,
)
    requires
        m.contains_key(id),
        m[id].routing.len() < MAX_CIDS_PER_FLOW,
        learned.version != 0,
        0 < learned.scid.len() <= MAX_CID_LEN,
        forall|x: u64| #[trigger] m.contains_key(x) && x != id ==> !m[x].routing.contains(learned.scid),
        header::long_header(datagram) is Some,
        header::long_header(datagram)->0.dcid == learned.scid,
    ensures
        flow_of(with_upstream_header(m, id, learned), peer, datagram, fallback) == Some(id),
{
    let after = with_upstream_header(m, id, learned);
    let rel = routing_rel(after);
    let cid = learned.scid;
    assert(after[id].routing.contains(cid)) by {
        if !m[id].routing.contains(cid) {
            assert(after[id].routing[m[id].routing.len() as int] == cid);
        }
    }
    assert forall|x: u64| #[trigger] rel.contains((cid, x)) implies x == id by {
        if x != id {
            assert(m.contains_key(x));
        }
    }
    assert(rel.contains((cid, id)));
    assert(index::is_sole(rel, cid, id));
}

/// A flow moves with its client: reaching it from a new address changes the
/// address alone.
pub proof fn law_migration_keeps_the_flow(m: FlowMap, id: u64, peer: SocketAddr)
    requires
        m.contains_key(id),
    ensures
        with_peer(m, id, peer)[id].peer == peer,
        with_peer(m, id, peer)[id].routing == m[id].routing,
        with_peer(m, id, peer)[id].short == m[id].short,
        with_peer(m, id, peer)[id].state == m[id].state,
        routing_rel(with_peer(m, id, peer)) == routing_rel(m),
        short_rel(with_peer(m, id, peer)) == short_rel(m),
{
    assert(routing_rel(with_peer(m, id, peer)) =~= routing_rel(m));
    assert(short_rel(with_peer(m, id, peer)) =~= short_rel(m));
}

/// The bounds on flows: 4096 of them, 256 of them not routed yet, which hold 8 MiB
/// together and 8 datagrams of 32 KiB each; 32 connection ids for each; 10 seconds to be
/// routed.
pub proof fn law_bounds_on_flows(m: FlowMap)
    ensures
        MAX_INITIAL_DATAGRAMS == 8,
        MAX_INITIAL_BYTES == 32 * 1024,
        MAX_CIDS_PER_FLOW == 32,
        INITIAL_INSPECTION_TIMEOUT_NANOS == 10000000000,
        has_room(m) <==> m.len() < 4096 && inspecting_count(m) < 256 && inspection_bytes(m) < 8 * 1024 * 1024,
{
}

/// A flow that is not routed is kept for 10 seconds after its last activity, and not a
/// moment longer; a routed one is not dropped for its age.
pub proof fn law_quiet_flow_runs_out_of_time(m: FlowMap, id: u64, now: Instant)
    requires
        m.contains_key(id),
        m[id].state matches StateView::Inspecting(v) ==> v.last_activity.valid(),
    ensures
        m[id].state matches StateView::Inspecting(v) ==> (pruned(m, now).contains_key(id) <==> now.nanos
            < v.last_activity.nanos + 10000000000),
        m[id].state is Forwarding ==> pruned(m, now).contains_key(id),
{
}

/// Under pressure the flow that has been quiet for longest gives way first.
pub proof fn law_quietest_flow_gives_way(m: FlowMap, id: u64, other: u64)
    requires
        m.dom().finite(),
        is_oldest(m, id),
        inspecting(m, other),
        m[id].state->Inspecting_0.last_activity.valid(),
        m[other].state->Inspecting_0.last_activity.valid(),
    ensures
        m[id].state->Inspecting_0.last_activity.nanos <= m[other].state->Inspecting_0.last_activity.nanos,
        !has_room(m) ==> made_room(m) == made_room(m.remove(id)),
        has_room(m) ==> made_room(m) == m,
{
    assert(deadline_of(m, id).not_after(deadline_of(m, other)));
    if !has_room(m) {
        let x = oldest(m)->0;
        assert(oldest(m) is Some);
        assert(is_oldest(m, x));
        lemma_oldest_is_unique(m, id, x);
    }
}

/// A flow buffers 8 datagrams of 32 KiB together, in the order in which they came, and
/// hands them over when its server name is known; one more changes nothing.
pub proof fn law_buffered_datagrams_are_handed_over(v: InspectView, datagram: Seq<u8>, now: Instant)
    ensures
        v.packets.len() >= 8 || total_len(v.packets) + datagram.len() > 32768 ==> v.with_datagram(datagram, now) == (
            v,
            InspectAnswer::Invalid,
        ),
        v.with_datagram(datagram, now).1 matches InspectAnswer::Routed { sni, packets } ==> packets == v.packets.push(
            datagram,
        ) && v.with_datagram(datagram, now).0.packets.len() == 0,
        v.with_datagram(datagram, now).1 is NeedMore ==> {
            &&& v.with_datagram(datagram, now).0.packets == v.packets.push(datagram)
            &&& v.with_datagram(datagram, now).0.last_activity == now
            &&& v.generation < u64::MAX ==> v.with_datagram(datagram, now).0.generation == v.generation + 1
            &&& v.with_datagram(datagram, now).0.generation != v.generation
        },
{
}

/// A short header finds the one flow that is known by the connection id in front of its
/// payload, whoever sends it.
pub proof fn law_short_header_finds_its_flow(
    m: FlowMap,
    id: u64,
    first: u8,
    cid: Seq<u8>,
    rest: Seq<u8>,
    peer: SocketAddr,
    fallback: bool,
)
    requires
        first < 128,
        0 < cid.len() <= 20,
        m.contains_key(id),
        m[id].short.contains(cid),
        forall|x: u64| #[trigger] short_match(m, seq![first] + cid + rest, x) ==> x == id,
    ensures
        flow_of(m, peer, seq![first] + cid + rest, fallback) == Some(id),
{
    let d = seq![first] + cid + rest;
    assert(d[0] == first);
    assert(short_cid(d, cid.len() as int) =~= cid);
    assert(short_rel(m).contains((short_cid(d, cid.len() as int), id)));
    assert(short_match(m, d, id));
    assert(is_short_owner(m, d, id));
    let x = choose|x: u64| is_short_owner(m, d, x);
    assert(is_short_owner(m, d, x));
}

/// A short header that no connection id explains goes by the client's address, where that
/// is allowed and one flow alone has it.
pub proof fn law_address_is_the_last_resort(m: FlowMap, id: u64, datagram: Seq<u8>)
    requires
        datagram.len() > 0,
        datagram[0] < 128,
        forall|x: u64| !#[trigger] short_match(m, datagram, x),
        m.contains_key(id),
        forall|x: u64| #[trigger] m.contains_key(x) && m[x].peer == m[id].peer ==> x == id,
    ensures
        flow_of(m, m[id].peer, datagram, true) == Some(id),
        flow_of(m, m[id].peer, datagram, false) is None,
{
    let rel = peer_rel(m);
    let peer = m[id].peer;
    assert(rel.contains((peer, id)));
    assert forall|x: u64| #[trigger] rel.contains((peer, x)) implies x == id by {
        assert(m.contains_key(x));
    }
    assert(index::is_sole(rel, peer, id));
    let x = choose|x: u64| index::is_sole(rel, peer, x);
    assert(index::is_sole(rel, peer, x));
}

/// A long header whose connection id no flow has belongs to none.
pub proof fn law_unknown_id_belongs_to_no_flow(m: FlowMap, peer: SocketAddr, datagram: Seq<u8>, fallback: bool)
    requires
        header::long_header(datagram) is Some,
        forall|x: u64| #[trigger] m.contains_key(x) ==> !m[x].routing.contains(header::long_header(datagram)->0.dcid),
    ensures
        flow_of(m, peer, datagram, fallback) is None,
{
    let cid = header::long_header(datagram)->0.dcid;
    assert forall|x: u64| !#[trigger] routing_rel(m).contains((cid, x)) by {
        if m.contains_key(x) {
        }
    }
}

/// A flow learns a connection id of 1 to 20 bytes, and short headers find it by those
/// alone that its server chose; routing a flow changes nothing but its state; flow ids
/// count up and are never 0.
pub proof fn law_flows_learn_and_count(f: FlowView, cid: Seq<u8>, m: FlowMap, id: u64)
    ensures
        0 < cid.len() <= 20 && f.routing.len() < 32 ==> f.with_cid(cid, true).routing.contains(cid) && f.with_cid(
            cid,
            true,
        ).short.contains(cid) && f.with_cid(cid, false).routing.contains(cid) && f.with_cid(cid, false).short == f.short,
        cid.len() == 0 || cid.len() > 20 ==> f.with_cid(cid, true) == f,
        f.with_cid(cid, true).peer == f.peer && f.with_cid(cid, true).state == f.state,
        m.contains_key(id) ==> {
            &&& with_promoted(m, id)[id].state is Forwarding
            &&& with_promoted(m, id)[id].peer == m[id].peer
            &&& with_promoted(m, id)[id].routing == m[id].routing
            &&& with_promoted(m, id)[id].short == m[id].short
            &&& with_promoted(m, id).remove(id) == m.remove(id)
        },
        id < u64::MAX ==> id_after(id) == id + 1,
        id_after(id) != 0,
{
    if 0 < cid.len() <= 20 && f.routing.len() < 32 {
        let a = f.with_cid(cid, true);
        let b = f.with_cid(cid, false);
        if !f.routing.contains(cid) {
            assert(a.routing[f.routing.len() as int] == cid);
            assert(b.routing[f.routing.len() as int] == cid);
        }
        if !f.short.contains(cid) {
            assert(a.short[f.short.len() as int] == cid);
        }
    }
    if m.contains_key(id) {
        assert(with_promoted(m, id).remove(id) =~= m.remove(id));
    }
}

} // verus!
