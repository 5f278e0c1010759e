//! The flow table of a QUIC listener.

use super::header::{LongHeader, MAX_CID_LEN};
use super::index;
use super::index::OwnerIndex;
use super::model;
use super::model::{
    Deadline, FlowMap, FlowView, InspectAnswer, InspectView, StateView, INITIAL_INSPECTION_TIMEOUT_NANOS,
    MAX_CIDS_PER_FLOW, MAX_FLOWS, MAX_INITIAL_BYTES, MAX_INITIAL_DATAGRAMS, MAX_INSPECTING_FLOWS,
    MAX_INSPECTION_BYTES, MAX_INSPECTION_DEADLINE_ENTRIES,
};
use crate::octets::{same, to_vec};
use crate::net::SocketAddr;
use crate::quic_initial::{CryptoStream, InitialInspector, InitialSni};
use crate::time::Instant;
use std::collections::HashMap;
use vstd::prelude::*;
use vstd::slice::slice_subrange;

verus! {

/// The byte strings of a list.
pub open spec fn views(list: Seq<Vec<u8>>) -> Seq<Seq<u8>> {
    list.map_values(|v: Vec<u8>| v@)
}

fn has_cid(list: &Vec<Vec<u8>>, cid: &[u8]) -> (r: bool)
    ensures
        r == views(list@).contains(cid@),
{
    let mut i: usize = 0;
    while i < list.len()
        invariant
            i <= list@.len(),
            forall|k: int| 0 <= k < i ==> views(list@)[k] != cid@,
        decreases list@.len() - i,
    {
        if same(list[i].as_slice(), cid) {
            assert(views(list@)[i as int] == cid@);
            return true;
        }
        i = i + 1;
    }
    false
}

// ---------------------------------------------------------------------------
// Flows
// ---------------------------------------------------------------------------

/// A flow that is not routed yet: its buffered datagrams and the inspector that
/// reads the server name out of them.
#[derive(Debug)]
pub struct InspectingFlow {
    inspector: InitialInspector,
    packets: Vec<Vec<u8>>,
    bytes: usize,
    last_activity: Instant,
    generation: u64,
}

impl View for InspectingFlow {
    type V = InspectView;

    closed spec fn view(&self) -> InspectView {
        InspectView {
            stream: self.inspector@,
            packets: views(self.packets@),
            last_activity: self.last_activity,
            generation: self.generation,
        }
    }
}

impl InspectingFlow {
    /// The flow keeps its bounds, and its byte count is that of its datagrams.
    pub closed spec fn valid(&self) -> bool {
        self@.bounded() && self.bytes == model::total_len(self@.packets)
    }

    fn new(now: Instant) -> (r: Self)
        requires
            now.valid(),
        ensures
            r.valid(),
            r@ == InspectView::fresh(now),
    {
        let r = InspectingFlow {
            inspector: InitialInspector::default(),
            packets: Vec::new(),
            bytes: 0,
            last_activity: now,
            generation: 0,
        };
        assert(views(r.packets@) =~= Seq::<Seq<u8>>::empty());
        r
    }

    /// Buffer one datagram, if there is room for it.
    fn push(&mut self, packet: &[u8], now: Instant) -> (r: Result<(), ()>)
        requires
            old(self).valid(),
            now.valid(),
        ensures
            final(self).valid(),
            r is Ok == old(self)@.accepts(packet@),
            r is Err ==> final(self)@ == old(self)@,
            r is Ok ==> final(self)@ == (InspectView {
                stream: old(self)@.stream,
                packets: old(self)@.packets.push(packet@),
                last_activity: now,
                generation: if old(self)@.generation == u64::MAX {
                    0
                } else {
                    (old(self)@.generation + 1) as u64
                },
            }),
    {
        if self.packets.len() >= MAX_INITIAL_DATAGRAMS || packet.len() > MAX_INITIAL_BYTES || self.bytes
            > MAX_INITIAL_BYTES - packet.len() {
            return Err(());
        }
        let ghost before = self@;
        self.last_activity = now;
        self.generation = if self.generation == u64::MAX {
            0
        } else {
            self.generation + 1
        };
        self.bytes = self.bytes + packet.len();
        self.packets.push(to_vec(packet));
        proof {
            assert(self@.packets =~= before.packets.push(packet@));
            assert(self@.packets.drop_last() =~= before.packets);
        }
        Ok(())
    }

    fn retained_bytes(&self) -> (r: usize)
        requires
            self.valid(),
        ensures
            r == self@.retained(),
            r <= 65536,
    {
        self.bytes + self.inspector.buffered_bytes()
    }

    /// Hand over the buffered datagrams and forget the handshake bytes.
    fn take_packets_and_release_inspector(&mut self) -> (r: Vec<Vec<u8>>)
        requires
            old(self).valid(),
        ensures
            final(self).valid(),
            views(r@) == old(self)@.packets,
            final(self)@ == (InspectView {
                stream: CryptoStream::empty(),
                packets: Seq::empty(),
                ..old(self)@
            }),
    {
        self.bytes = 0;
        self.inspector = InitialInspector::default();
        let mut taken: Vec<Vec<u8>> = Vec::new();
        std::mem::swap(&mut taken, &mut self.packets);
        assert(views(self.packets@) =~= Seq::<Seq<u8>>::empty());
        taken
    }

    /// Buffer one datagram and inspect it.
    fn inspect(&mut self, datagram: &[u8], now: Instant) -> (r: InspectResult)
        requires
            old(self).valid(),
            now.valid(),
        ensures
            final(self).valid(),
            (final(self)@, r@) == old(self)@.with_datagram(datagram@, now),
    {
        if self.push(datagram, now).is_err() {
            return InspectResult::Invalid;
        }
        match self.inspector.ingest(datagram) {
            InitialSni::NeedMore => InspectResult::NeedMore,
            InitialSni::Invalid => InspectResult::Invalid,
            InitialSni::Name(sni) => {
                let packets = self.take_packets_and_release_inspector();
                InspectResult::Routed { sni, packets }
            },
            InitialSni::NoSni => {
                let packets = self.take_packets_and_release_inspector();
                InspectResult::Routed { sni: String::new(), packets }
            },
        }
    }
}

/// The state of a flow.
#[derive(Debug)]
pub enum FlowState {
    Inspecting(InspectingFlow),
    /// Routed: datagrams go to the flow's queue, which exists before the
    /// upstream is set up.
    Forwarding,
}

/// What inspecting a datagram brought.
#[derive(Debug)]
pub enum InspectResult {
    NeedMore,
    Invalid,
    /// The server name (empty if the client sent none) and the datagrams to
    /// hand on.
    Routed { sni: String, packets: Vec<Vec<u8>> },
}

impl View for InspectResult {
    type V = InspectAnswer;

    open spec fn view(&self) -> InspectAnswer {
        match self {
            InspectResult::NeedMore => InspectAnswer::NeedMore,
            InspectResult::Invalid => InspectAnswer::Invalid,
            InspectResult::Routed { sni, packets } => InspectAnswer::Routed { sni: sni@, packets: views(packets@) },
        }
    }
}

/// One flow.
#[derive(Debug)]
pub struct FlowEntry {
    peer: SocketAddr,
    routing_cids: Vec<Vec<u8>>,
    short_cids: Vec<Vec<u8>>,
    state: FlowState,
}

impl View for FlowEntry {
    type V = FlowView;

    closed spec fn view(&self) -> FlowView {
        FlowView {
            peer: self.peer,
            routing: views(self.routing_cids@),
            short: views(self.short_cids@),
            state: match self.state {
                FlowState::Inspecting(flow) => StateView::Inspecting(flow@),
                FlowState::Forwarding => StateView::Forwarding,
            },
        }
    }
}

impl FlowEntry {
    /// The flow keeps its bounds.
    pub closed spec fn valid(&self) -> bool {
        &&& self@.bounded()
        &&& self.state matches FlowState::Inspecting(flow) ==> flow.valid()
    }
}

// ---------------------------------------------------------------------------
// Deadlines
// ---------------------------------------------------------------------------

/// Whether a deadline is that of a flow which is not routed yet.
pub open spec fn is_current(m: FlowMap, d: Deadline) -> bool {
    model::inspecting(m, d.id) && model::deadline_of(m, d.id) == d
}

fn not_after(a: &Deadline, b: &Deadline) -> (r: bool)
    ensures
        r == a.not_after(*b),
{
    if a.at.nanos != b.at.nanos {
        a.at.nanos < b.at.nanos
    } else if a.id != b.id {
        a.id < b.id
    } else {
        a.generation <= b.generation
    }
}

/// Take out the deadline that comes first.
fn pop_first(deadlines: &mut Vec<Deadline>) -> (r: Option<Deadline>)
    ensures
        match r {
            Some(d) => {
                &&& old(deadlines)@.contains(d)
                &&& forall|x: Deadline| #[trigger] old(deadlines)@.contains(x) ==> d.not_after(x)
                &&& forall|x: Deadline|
                    #[trigger] old(deadlines)@.contains(x) && x != d ==> final(deadlines)@.contains(x)
                &&& forall|x: Deadline| #[trigger] final(deadlines)@.contains(x) ==> old(deadlines)@.contains(x)
                &&& final(deadlines)@.len() == old(deadlines)@.len() - 1
            },
            None => old(deadlines)@.len() == 0 && final(deadlines)@ == old(deadlines)@,
        },
{
    if deadlines.len() == 0 {
        return None;
    }
    let ghost before = deadlines@;
    let at = first_index(deadlines);
    let d = deadlines.swap_remove(at);
    proof {
        assert(before[at as int] == d);
        let after = deadlines@;
        assert forall|x: Deadline| #[trigger] before.contains(x) && x != d implies after.contains(x) by {
            let k = choose|k: int| 0 <= k < before.len() && before[k] == x;
            if k == before.len() - 1 {
                assert(after[at as int] == x);
            } else {
                assert(after[k] == x);
            }
        }
        assert forall|x: Deadline| #[trigger] after.contains(x) implies before.contains(x) by {
            let k = choose|k: int| 0 <= k < after.len() && after[k] == x;
            if k == at {
                assert(before[before.len() - 1] == x);
            } else {
                assert(before[k] == x);
            }
        }
    }
    Some(d)
}

/// The index of the deadline that comes first.
fn first_index(deadlines: &Vec<Deadline>) -> (r: usize)
    requires
        deadlines@.len() > 0,
    ensures
        r < deadlines@.len(),
        forall|x: Deadline| #[trigger] deadlines@.contains(x) ==> deadlines@[r as int].not_after(x),
{
    let mut at: usize = 0;
    let mut i: usize = 1;
    while i < deadlines.len()
        invariant
            at < i <= deadlines@.len(),
            forall|k: int| 0 <= k < i ==> deadlines@[at as int].not_after(#[trigger] deadlines@[k]),
        decreases deadlines@.len() - i,
    {
        if !not_after(&deadlines[at], &deadlines[i]) {
            at = i;
        }
        i = i + 1;
    }
    at
}

/// The flows of a map of entries.
pub closed spec fn flows_of(entries: Map<u64, FlowEntry>) -> FlowMap {
    entries.map_values(|e: FlowEntry| e@)
}

/// Whether every entry keeps its bounds.
pub closed spec fn entries_valid(entries: Map<u64, FlowEntry>) -> bool {
    forall|id: u64| #[trigger] entries.contains_key(id) ==> entries[id].valid()
}

fn check_current(entries: &HashMap<u64, FlowEntry>, d: &Deadline) -> (r: bool)
    requires
        entries_valid(entries@),
    ensures
        r == is_current(flows_of(entries@), *d),
{
    let ghost m = flows_of(entries@);
    match entries.get(&d.id) {
        Some(entry) => {
            assert(m.contains_key(d.id) && m[d.id] == entry@);
            match &entry.state {
                FlowState::Inspecting(flow) => {
                    assert(entry@.state == StateView::Inspecting(flow@));
                    flow.generation == d.generation && flow.last_activity.nanos
                        + INITIAL_INSPECTION_TIMEOUT_NANOS == d.at.nanos
                },
                FlowState::Forwarding => false,
            }
        },
        None => false,
    }
}

/// Add a deadline. Once too many have piled up, the outdated ones are dropped.
fn schedule(deadlines: &mut Vec<Deadline>, entries: &HashMap<u64, FlowEntry>, d: Deadline)
    requires
        entries_valid(entries@),
    ensures
        forall|x: Deadline| #[trigger] is_current(flows_of(entries@), x) && (old(deadlines)@.contains(x) || x == d)
            ==> final(deadlines)@.contains(x),
        final(deadlines)@.len() > MAX_INSPECTION_DEADLINE_ENTRIES ==> forall|i: int|
            0 <= i < final(deadlines)@.len() ==> is_current(flows_of(entries@), #[trigger] final(deadlines)@[i]),
{
    let ghost m = flows_of(entries@);
    let ghost before = deadlines@;
    deadlines.push(d);
    let ghost full = deadlines@;
    assert(full[before.len() as int] == d);
    assert forall|x: Deadline| #[trigger] before.contains(x) implies full.contains(x) by {
        let k = choose|k: int| 0 <= k < before.len() && before[k] == x;
        assert(full[k] == x);
    }
    if deadlines.len() <= MAX_INSPECTION_DEADLINE_ENTRIES {
        return;
    }
    let mut kept: Vec<Deadline> = Vec::new();
    let mut i: usize = 0;
    while i < deadlines.len()
        invariant
            entries_valid(entries@),
            m == flows_of(entries@),
            deadlines@ == full,
            i <= full.len(),
            forall|k: int| 0 <= k < i && is_current(m, #[trigger] full[k]) ==> kept@.contains(full[k]),
            forall|k: int| 0 <= k < kept@.len() ==> is_current(m, #[trigger] kept@[k]),
        decreases full.len() - i,
    {
        if check_current(entries, &deadlines[i]) {
            let ghost shorter = kept@;
            kept.push(deadlines[i]);
            proof {
                assert(kept@[shorter.len() as int] == full[i as int]);
                assert forall|k: int| 0 <= k < i + 1 && is_current(m, #[trigger] full[k]) implies kept@.contains(
                    full[k],
                ) by {
                    if k < i {
                        let j = choose|j: int| 0 <= j < shorter.len() && shorter[j] == full[k];
                        assert(kept@[j] == full[k]);
                    }
                }
            }
        }
        i = i + 1;
    }
    *deadlines = kept;
    assert forall|x: Deadline| #[trigger] is_current(m, x) && (before.contains(x) || x == d) implies deadlines@.contains(
        x,
    ) by {
        let k = choose|k: int| 0 <= k < full.len() && full[k] == x;
        assert(is_current(m, full[k]));
    }
}

// ---------------------------------------------------------------------------
// Short connection-id lengths
// ---------------------------------------------------------------------------

/// The owned connection ids of `n` bytes.
pub open spec fn keys_of_len(rel: Set<(Seq<u8>, u64)>, n: int) -> Set<Seq<u8>> {
    index::owned_keys(rel).filter(|c: Seq<u8>| c.len() == n)
}

/// Whether `lengths` counts the owned connection ids by their length.
pub open spec fn lengths_match(lengths: Seq<usize>, rel: Set<(Seq<u8>, u64)>) -> bool {
    &&& lengths.len() == MAX_CID_LEN + 1
    &&& index::owned_keys(rel).finite()
    &&& forall|n: int| 0 <= n <= MAX_CID_LEN ==> #[trigger] lengths[n] == keys_of_len(rel, n).len()
}

proof fn lemma_keys_after_insert(rel: Set<(Seq<u8>, u64)>, cid: Seq<u8>, id: u64)
    ensures
        index::owned_keys(rel.insert((cid, id))) == index::owned_keys(rel).insert(cid),
{
    let after = rel.insert((cid, id));
    assert forall|c: Seq<u8>| index::owned_keys(after).contains(c) <==> #[trigger] index::owned_keys(rel).insert(cid).contains(
        c,
    ) by {
        if index::owned_keys(after).contains(c) && c != cid {
            let x = choose|x: u64| #[trigger] after.contains((c, x));
            assert(rel.contains((c, x)));
        }
        if index::owned_keys(rel).contains(c) {
            let x = choose|x: u64| #[trigger] rel.contains((c, x));
            assert(after.contains((c, x)));
        }
        assert(after.contains((cid, id)));
    }
    assert(index::owned_keys(after) =~= index::owned_keys(rel).insert(cid));
}

proof fn lemma_keys_after_remove(rel: Set<(Seq<u8>, u64)>, cid: Seq<u8>, id: u64)
    ensures
        index::owned(rel.remove((cid, id)), cid) ==> index::owned_keys(rel.remove((cid, id))) == index::owned_keys(rel),
        !index::owned(rel.remove((cid, id)), cid) ==> index::owned_keys(rel.remove((cid, id))) == index::owned_keys(rel).remove(cid),
{
    let after = rel.remove((cid, id));
    assert forall|c: Seq<u8>| c != cid implies (#[trigger] index::owned_keys(after).contains(c) <==> index::owned_keys(
        rel,
    ).contains(c)) by {
        if index::owned_keys(rel).contains(c) {
            let x = choose|x: u64| #[trigger] rel.contains((c, x));
            assert(after.contains((c, x)));
        }
        if index::owned_keys(after).contains(c) {
            let x = choose|x: u64| #[trigger] after.contains((c, x));
            assert(rel.contains((c, x)));
        }
    }
    if index::owned(after, cid) {
        let x = choose|x: u64| #[trigger] after.contains((cid, x));
        assert(rel.contains((cid, x)));
        assert(index::owned_keys(after) =~= index::owned_keys(rel));
    } else {
        assert(index::owned_keys(after) =~= index::owned_keys(rel).remove(cid));
    }
}

proof fn lemma_same_lengths(lengths: Seq<usize>, before: Set<(Seq<u8>, u64)>, after: Set<(Seq<u8>, u64)>)
    requires
        lengths_match(lengths, before),
        index::owned_keys(before) == index::owned_keys(after),
    ensures
        lengths_match(lengths, after),
{
    assert forall|n: int| 0 <= n <= MAX_CID_LEN implies #[trigger] lengths[n] == keys_of_len(after, n).len() by {
        assert(keys_of_len(before, n) == keys_of_len(after, n));
    }
}

/// What a new connection id does to the counts.
proof fn lemma_lengths_after_insert(
    lengths: Seq<usize>,
    longer: Seq<usize>,
    before: Set<(Seq<u8>, u64)>,
    after: Set<(Seq<u8>, u64)>,
    cid: Seq<u8>,
)
    requires
        lengths_match(lengths, before),
        cid.len() <= MAX_CID_LEN,
        !index::owned(before, cid),
        index::owned_keys(after) == index::owned_keys(before).insert(cid),
        longer.len() == lengths.len(),
        longer[cid.len() as int] == lengths[cid.len() as int] + 1,
        forall|n: int| 0 <= n < lengths.len() && n != cid.len() ==> #[trigger] longer[n] == lengths[n],
    ensures
        lengths_match(longer, after),
{
    assert forall|n: int| 0 <= n <= MAX_CID_LEN implies #[trigger] longer[n] == keys_of_len(after, n).len() by {
        let old_keys = keys_of_len(before, n);
        assert(lengths[n] == old_keys.len());
        if n == cid.len() {
            assert(keys_of_len(after, n) =~= old_keys.insert(cid));
        } else {
            assert(keys_of_len(after, n) =~= old_keys);
        }
    }
}

/// What a connection id that lost its last owner does to the counts.
proof fn lemma_lengths_after_remove(
    lengths: Seq<usize>,
    shorter: Seq<usize>,
    before: Set<(Seq<u8>, u64)>,
    after: Set<(Seq<u8>, u64)>,
    cid: Seq<u8>,
)
    requires
        lengths_match(lengths, before),
        cid.len() <= MAX_CID_LEN,
        index::owned(before, cid),
        index::owned_keys(after) == index::owned_keys(before).remove(cid),
        shorter.len() == lengths.len(),
        shorter[cid.len() as int] == lengths[cid.len() as int] - 1,
        forall|n: int| 0 <= n < lengths.len() && n != cid.len() ==> #[trigger] shorter[n] == lengths[n],
    ensures
        lengths_match(shorter, after),
{
    assert forall|n: int| 0 <= n <= MAX_CID_LEN implies #[trigger] shorter[n] == keys_of_len(after, n).len() by {
        let old_keys = keys_of_len(before, n);
        assert(lengths[n] == old_keys.len());
        if n == cid.len() {
            assert(old_keys.contains(cid));
            assert(keys_of_len(after, n) =~= old_keys.remove(cid));
        } else {
            assert(keys_of_len(after, n) =~= old_keys);
        }
    }
}

/// The relation without the pairs of one flow and some connection ids.
pub open spec fn without_cids(rel: Set<(Seq<u8>, u64)>, cids: Seq<Seq<u8>>, id: u64) -> Set<(Seq<u8>, u64)> {
    Set::new(|p: (Seq<u8>, u64)| rel.contains(p) && !(p.1 == id && cids.contains(p.0)))
}

proof fn lemma_without_one_more(rel: Set<(Seq<u8>, u64)>, cids: Seq<Seq<u8>>, j: int, id: u64)
    requires
        0 <= j < cids.len(),
    ensures
        without_cids(rel, cids.take(j), id).remove((cids[j], id)) == without_cids(rel, cids.take(j + 1), id),
{
    let shorter = cids.take(j);
    let longer = cids.take(j + 1);
    assert(longer =~= shorter.push(cids[j]));
    assert forall|c: Seq<u8>| longer.contains(c) <==> (#[trigger] shorter.contains(c) || c == cids[j]) by {
        if longer.contains(c) {
            let k = choose|k: int| 0 <= k < longer.len() && longer[k] == c;
            if k < j {
                assert(shorter[k] == c);
            }
        }
        if shorter.contains(c) {
            let k = choose|k: int| 0 <= k < shorter.len() && shorter[k] == c;
            assert(longer[k] == c);
        }
        assert(longer[j] == cids[j]);
    }
    assert(without_cids(rel, shorter, id).remove((cids[j], id)) =~= without_cids(rel, longer, id));
}

fn drop_cids(rel: &mut OwnerIndex<Vec<u8>>, cids: &Vec<Vec<u8>>, id: u64)
    requires
        old(rel).valid(),
    ensures
        final(rel).valid(),
        final(rel)@ == without_cids(old(rel)@, views(cids@), id),
{
    let ghost before = rel@;
    let ghost all = views(cids@);
    let mut j: usize = 0;
    assert(without_cids(before, all.take(0), id) =~= before);
    while j < cids.len()
        invariant
            rel.valid(),
            all == views(cids@),
            j <= cids@.len(),
            rel@ == without_cids(before, all.take(j as int), id),
        decreases cids@.len() - j,
    {
        rel.remove(&cids[j], id);
        proof {
            lemma_without_one_more(before, all, j as int, id);
        }
        j = j + 1;
    }
    assert(all.take(j as int) =~= all);
}

fn drop_short_cids(rel: &mut OwnerIndex<Vec<u8>>, lengths: &mut Vec<usize>, cids: &Vec<Vec<u8>>, id: u64)
    requires
        old(rel).valid(),
        lengths_match(old(lengths)@, old(rel)@),
        forall|i: int| 0 <= i < cids@.len() ==> (#[trigger] cids@[i])@.len() <= MAX_CID_LEN,
    ensures
        final(rel).valid(),
        final(rel)@ == without_cids(old(rel)@, views(cids@), id),
        lengths_match(final(lengths)@, final(rel)@),
{
    let ghost before = rel@;
    let ghost all = views(cids@);
    let mut j: usize = 0;
    assert(without_cids(before, all.take(0), id) =~= before);
    while j < cids.len()
        invariant
            rel.valid(),
            all == views(cids@),
            j <= cids@.len(),
            rel@ == without_cids(before, all.take(j as int), id),
            lengths_match(lengths@, rel@),
            forall|i: int| 0 <= i < cids@.len() ==> (#[trigger] cids@[i])@.len() <= MAX_CID_LEN,
        decreases cids@.len() - j,
    {
        let ghost now = rel@;
        let ghost counts = lengths@;
        let ghost cid = cids@[j as int]@;
        let gone = rel.remove(&cids[j], id);
        proof {
            lemma_without_one_more(before, all, j as int, id);
            lemma_keys_after_remove(now, cid, id);
        }
        if gone {
            let n = cids[j].len();
            proof {
                assert(keys_of_len(now, n as int).contains(cid));
                assert(counts[n as int] == keys_of_len(now, n as int).len());
                vstd::set_lib::lemma_set_empty_equivalency_len(keys_of_len(now, n as int));
            }
            lengths.set(n, lengths[n] - 1);
            proof {
                lemma_lengths_after_remove(counts, lengths@, now, rel@, cid);
            }
        } else {
            proof {
                if !index::owned(rel@, cid) {
                    assert(!index::owned(now, cid));
                    assert(index::owned_keys(now).remove(cid) =~= index::owned_keys(now));
                }
                lemma_same_lengths(counts, now, rel@);
            }
        }
        j = j + 1;
    }
    assert(all.take(j as int) =~= all);
}

// ---------------------------------------------------------------------------
// The table
// ---------------------------------------------------------------------------

/// The flows of a listener, with the indexes that find them.
#[derive(Debug)]
pub struct FlowTable {
    next_id: u64,
    entries: HashMap<u64, FlowEntry>,
    inspecting_count: usize,
    inspection_bytes: usize,
    deadlines: Vec<Deadline>,
    peers: OwnerIndex<SocketAddr>,
    /// Connection ids accepted for long-header lookup: the client's first one,
    /// and those that the server has issued. Never extended from arbitrary
    /// client packets.
    routing_cids: OwnerIndex<Vec<u8>>,
    /// Only server-issued connection ids are eligible for short-header lookup.
    short_cids: OwnerIndex<Vec<u8>>,
    /// How many short-header connection ids there are of each length.
    short_cid_lengths: Vec<usize>,
}

impl View for FlowTable {
    type V = FlowMap;

    closed spec fn view(&self) -> FlowMap {
        flows_of(self.entries@)
    }
}

impl FlowTable {
    /// The id that the next flow will get.
    pub closed spec fn next(&self) -> u64 {
        self.next_id
    }

    spec fn counts_match(&self) -> bool {
        &&& self.inspecting_count == model::inspecting_count(self@)
        &&& self.inspection_bytes == model::inspection_bytes(self@)
    }

    spec fn peers_match(&self) -> bool {
        self.peers.valid() && self.peers@ == model::peer_rel(self@)
    }

    spec fn routing_match(&self) -> bool {
        self.routing_cids.valid() && self.routing_cids@ == model::routing_rel(self@)
    }

    spec fn short_match(&self) -> bool {
        &&& self.short_cids.valid()
        &&& self.short_cids@ == model::short_rel(self@)
        &&& lengths_match(self.short_cid_lengths@, self.short_cids@)
    }

    spec fn deadlines_match(&self) -> bool {
        forall|id: u64| #[trigger] model::inspecting(self@, id) ==> self.deadlines@.contains(model::deadline_of(self@, id))
    }

    /// Every flow keeps its bounds; the counters, the indexes and the deadlines
    /// say of the flows exactly what is true of them.
    pub closed spec fn valid(&self) -> bool {
        &&& entries_valid(self.entries@)
        &&& self.counts_match()
        &&& self.peers_match()
        &&& self.routing_match()
        &&& self.short_match()
        &&& self.deadlines_match()
    }

    /// What every valid table keeps.
    pub proof fn lemma_valid(&self)
        requires
            self.valid(),
        ensures
            self@.dom().finite(),
            forall|id: u64| #[trigger] self@.contains_key(id) ==> self@[id].bounded(),
            model::inspecting_count(self@) <= usize::MAX,
            model::inspection_bytes(self@) <= usize::MAX,
    {
        assert(self@.dom() =~= self.entries@.dom());
        assert forall|id: u64| #[trigger] self@.contains_key(id) implies self@[id].bounded() by {
            assert(self.entries@.contains_key(id));
        }
    }

    /// A table without flows.
    pub fn new() -> (r: Self)
        ensures
            r.valid(),
            r@ == Map::<u64, FlowView>::empty(),
            r.next() == 1,
    {
        let mut lengths: Vec<usize> = Vec::new();
        while lengths.len() < MAX_CID_LEN + 1
            invariant
                lengths@.len() <= MAX_CID_LEN + 1,
                forall|n: int| 0 <= n < lengths@.len() ==> lengths@[n] == 0,
            decreases MAX_CID_LEN + 1 - lengths@.len(),
        {
            lengths.push(0);
        }
        let r = FlowTable {
            next_id: 1,
            entries: HashMap::new(),
            inspecting_count: 0,
            inspection_bytes: 0,
            deadlines: Vec::new(),
            peers: OwnerIndex::new(),
            routing_cids: OwnerIndex::new(),
            short_cids: OwnerIndex::new(),
            short_cid_lengths: lengths,
        };
        proof {
            assert(r@ =~= Map::<u64, FlowView>::empty());
            model::lemma_empty_counts();
            assert(r.peers@ =~= model::peer_rel(r@));
            assert(r.routing_cids@ =~= model::routing_rel(r@));
            assert(r.short_cids@ =~= model::short_rel(r@));
            assert(index::owned_keys(r.short_cids@) =~= Set::<Seq<u8>>::empty());
            assert forall|n: int| 0 <= n <= MAX_CID_LEN implies #[trigger] r.short_cid_lengths@[n] == keys_of_len(
                r.short_cids@,
                n,
            ).len() by {
                assert(keys_of_len(r.short_cids@, n) =~= Set::<Seq<u8>>::empty());
            }
        }
        r
    }

    /// How many flows there are.
    pub fn len(&self) -> (r: usize)
        requires
            self.valid(),
        ensures
            r == self@.len(),
    {
        assert(self@.dom() =~= self.entries@.dom());
        self.entries.len()
    }

    /// Whether a flow exists.
    pub fn contains(&self, id: u64) -> (r: bool)
        ensures
            r == self@.contains_key(id),
    {
        assert(self@.dom() =~= self.entries@.dom());
        self.entries.contains_key(&id)
    }

    /// Whether the id that the next flow will get is free.
    pub fn has_free_id(&self) -> (r: bool)
        ensures
            r == !self@.contains_key(self.next()),
    {
        !self.contains(self.next_id)
    }

    /// How many flows are not routed yet, and how many bytes they hold.
    pub fn inspecting_stats(&self) -> (r: (usize, usize))
        requires
            self.valid(),
        ensures
            r.0 == model::inspecting_count(self@),
            r.1 == model::inspection_bytes(self@),
    {
        (self.inspecting_count, self.inspection_bytes)
    }

    /// The client's address of a flow.
    pub fn peer(&self, id: u64) -> (r: Option<SocketAddr>)
        ensures
            r == (if self@.contains_key(id) {
                Some(self@[id].peer)
            } else {
                None
            }),
    {
        assert(self@.dom() =~= self.entries@.dom());
        match self.entries.get(&id) {
            Some(entry) => {
                assert(self@[id] == entry@);
                Some(entry.peer)
            },
            None => None,
        }
    }

    /// Whether a flow has been routed.
    pub fn is_forwarding(&self, id: u64) -> (r: bool)
        ensures
            r == (self@.contains_key(id) && self@[id].state is Forwarding),
    {
        assert(self@.dom() =~= self.entries@.dom());
        match self.entries.get(&id) {
            Some(entry) => {
                assert(self@[id] == entry@);
                match &entry.state {
                    FlowState::Forwarding => true,
                    FlowState::Inspecting(_) => false,
                }
            },
            None => false,
        }
    }

    /// How many connection ids long headers find a flow by.
    pub fn routing_cid_count(&self, id: u64) -> (r: usize)
        ensures
            r == (if self@.contains_key(id) {
                self@[id].routing.len()
            } else {
                0
            }),
    {
        assert(self@.dom() =~= self.entries@.dom());
        match self.entries.get(&id) {
            Some(entry) => {
                assert(self@[id] == entry@);
                entry.routing_cids.len()
            },
            None => 0,
        }
    }

    /// How many connection ids short headers find a flow by.
    pub fn short_cid_count(&self, id: u64) -> (r: usize)
        ensures
            r == (if self@.contains_key(id) {
                self@[id].short.len()
            } else {
                0
            }),
    {
        assert(self@.dom() =~= self.entries@.dom());
        match self.entries.get(&id) {
            Some(entry) => {
                assert(self@[id] == entry@);
                entry.short_cids.len()
            },
            None => 0,
        }
    }

    /// How many connection ids long headers find any flow by.
    pub fn routing_key_count(&self) -> (r: usize)
        requires
            self.valid(),
        ensures
            r == index::owned_keys(model::routing_rel(self@)).len(),
    {
        self.routing_cids.len()
    }

    /// How many connection ids short headers find any flow by.
    pub fn short_key_count(&self) -> (r: usize)
        requires
            self.valid(),
        ensures
            r == index::owned_keys(model::short_rel(self@)).len(),
    {
        self.short_cids.len()
    }

    /// How many of those have `n` bytes.
    pub fn short_keys_of_len(&self, n: usize) -> (r: usize)
        requires
            self.valid(),
            n <= MAX_CID_LEN,
        ensures
            r == keys_of_len(model::short_rel(self@), n as int).len(),
    {
        self.short_cid_lengths[n]
    }

    /// How many deadlines are kept, outdated ones among them.
    pub fn deadline_count(&self) -> (r: usize)
        ensures
            r == self.pending(),
    {
        self.deadlines.len()
    }

    /// How many deadlines are kept.
    pub closed spec fn pending(&self) -> nat {
        self.deadlines@.len()
    }

    // -- lookup -------------------------------------------------------------

    /// The flow that a client datagram belongs to.
    ///
    /// A known connection id wins over the source address. An unknown long
    /// header, or one that cannot be read, never falls back to the address:
    /// accepting one that way would let a client invent connection ids and poison
    /// the flow's ownership. The address is only for short headers, whose connection-id length is not on
    /// the wire, and only where that is allowed.
    pub fn flow_id_for(&self, peer: SocketAddr, datagram: &[u8], allow_peer_fallback: bool) -> (r: Option<u64>)
        requires
            self.valid(),
        ensures
            r == model::flow_of(self@, peer, datagram@, allow_peer_fallback),
    {
        match LongHeader::parse(datagram) {
            Some(header) => self.unique_routing_cid_owner(header.dcid),
            None => match self.short_header_owner(datagram) {
                Some(id) => Some(id),
                None => if allow_peer_fallback && datagram.len() > 0 && datagram[0] < 0x80 {
                    self.unique_peer_owner(peer)
                } else {
                    None
                },
            },
        }
    }

    /// The one flow that a connection id belongs to.
    pub fn unique_routing_cid_owner(&self, cid: &[u8]) -> (r: Option<u64>)
        requires
            self.valid(),
        ensures
            r == model::cid_owner(self@, cid@),
    {
        if cid.len() == 0 {
            return None;
        }
        self.routing_cids.sole(&to_vec(cid))
    }

    /// The one flow that a client address belongs to.
    pub fn unique_peer_owner(&self, peer: SocketAddr) -> (r: Option<u64>)
        requires
            self.valid(),
        ensures
            r == index::sole_owner(model::peer_rel(self@), peer),
    {
        self.peers.sole(&peer)
    }

    /// The one flow that a short header belongs to: every legal connection-id
    /// length is tried against server-issued connection ids only.
    pub fn short_header_owner(&self, datagram: &[u8]) -> (r: Option<u64>)
        requires
            self.valid(),
        ensures
            r == model::short_owner(self@, datagram@),
    {
        if datagram.len() <= 1 || datagram[0] >= 0x80 {
            return None;
        }
        let ghost m = self@;
        let ghost rel = model::short_rel(m);
        let ghost d = datagram@;
        let max = if MAX_CID_LEN <= datagram.len() - 1 {
            MAX_CID_LEN
        } else {
            datagram.len() - 1
        };
        let mut candidate: Option<u64> = None;
        let mut n: usize = 1;
        while n <= max
            invariant
                self.valid(),
                m == self@,
                rel == model::short_rel(m),
                d == datagram@,
                d.len() > 1,
                d[0] < 0x80,
                max <= MAX_CID_LEN,
                max < d.len(),
                max == MAX_CID_LEN || max == d.len() - 1,
                1 <= n <= max + 1,
                forall|k: int, x: u64|
                    1 <= k < n && #[trigger] rel.contains((model::short_cid(d, k), x)) ==> candidate == Some(x),
                candidate matches Some(id) ==> model::short_match(m, d, id),
            decreases max + 1 - n,
        {
            let ghost cid = model::short_cid(d, n as int);
            if self.short_cid_lengths[n] == 0 {
                proof {
                    assert(self.short_cid_lengths@[n as int] == keys_of_len(rel, n as int).len());
                    assert forall|x: u64| !#[trigger] rel.contains((cid, x)) by {
                        if rel.contains((cid, x)) {
                            assert(keys_of_len(rel, n as int).contains(cid));
                            vstd::set_lib::lemma_set_empty_equivalency_len(keys_of_len(rel, n as int));
                        }
                    }
                }
                n = n + 1;
                continue;
            }
            let key = to_vec(slice_subrange(datagram, 1, 1 + n));
            match self.short_cids.lookup(&key) {
                None => {
                    assert(!index::owned(rel, cid));
                },
                Some(None) => {
                    proof {
                        let a = choose|x: u64| #[trigger] rel.contains((cid, x));
                        if model::short_owner(m, d) is Some {
                            let id = choose|id: u64| model::is_short_owner(m, d, id);
                            assert(model::is_short_owner(m, d, id));
                            assert forall|x: u64| #[trigger] rel.contains((cid, x)) implies x == id by {
                                assert(model::short_match(m, d, x));
                            }
                            assert(index::is_sole(rel, cid, a));
                        }
                    }
                    return None;
                },
                Some(Some(id)) => {
                    proof {
                        assert(index::is_sole(rel, cid, id));
                        assert(rel.contains((cid, id)));
                        assert(model::short_match(m, d, id));
                    }
                    match candidate {
                        None => {
                            candidate = Some(id);
                        },
                        Some(previous) => {
                            if previous != id {
                                proof {
                                    if model::short_owner(m, d) is Some {
                                        let one = choose|one: u64| model::is_short_owner(m, d, one);
                                        assert(model::is_short_owner(m, d, one));
                                        assert(model::short_match(m, d, previous));
                                        assert(false);
                                    }
                                }
                                return None;
                            }
                        },
                    }
                },
            }
            n = n + 1;
        }
        proof {
            assert forall|x: u64| #[trigger] model::short_match(m, d, x) implies candidate == Some(x) by {
                let k = choose|k: int|
                    1 <= k <= MAX_CID_LEN && k < d.len() && #[trigger] rel.contains((model::short_cid(d, k), x));
                assert(k < n);
            }
            match candidate {
                Some(id) => {
                    assert(model::is_short_owner(m, d, id));
                },
                None => {
                    if model::short_owner(m, d) is Some {
                        let one = choose|one: u64| model::is_short_owner(m, d, one);
                        assert(model::is_short_owner(m, d, one));
                        assert(model::short_match(m, d, one));
                    }
                },
            }
        }
        candidate
    }
}

impl FlowTable {
    // -- changes ------------------------------------------------------------

    /// Forget a flow and everything that finds it.
    pub fn remove(&mut self, id: u64)
        requires
            old(self).valid(),
        ensures
            final(self).valid(),
            final(self)@ == old(self)@.remove(id),
            final(self).next() == old(self).next(),
            final(self).pending() == old(self).pending(),
    {
        self.detach(id);
    }

    /// Forget a flow and everything that finds it, whether or not its deadline is
    /// still kept.
    fn detach(&mut self, id: u64)
        requires
            entries_valid(old(self).entries@),
            old(self).counts_match(),
            old(self).peers_match(),
            old(self).routing_match(),
            old(self).short_match(),
            forall|x: u64| #[trigger]
                model::inspecting(old(self)@, x) && x != id ==> old(self).deadlines@.contains(
                    model::deadline_of(old(self)@, x),
                ),
        ensures
            final(self).valid(),
            final(self)@ == old(self)@.remove(id),
            final(self).next() == old(self).next(),
            final(self).deadlines@.len() == old(self).deadlines@.len(),
    {
        let ghost before = *self;
        let ghost m = self@;
        let entry = match self.entries.remove(&id) {
            Some(entry) => entry,
            None => {
                assert(flows_of(self.entries@) =~= m);
                assert(m.remove(id) =~= m);
                assert(m.dom() =~= before.entries@.dom());
                return;
            },
        };
        let ghost after = m.remove(id);
        proof {
            assert(before.entries@.contains_key(id) && before.entries@[id] == entry);
            assert(m[id] == entry@ && entry.valid());
            assert(self@ =~= after);
            model::lemma_counts_change(m, after, id);
        }
        match &entry.state {
            FlowState::Inspecting(flow) => {
                self.inspecting_count = self.inspecting_count - 1;
                self.inspection_bytes = self.inspection_bytes - flow.retained_bytes();
            },
            FlowState::Forwarding => {},
        }
        self.peers.remove(&entry.peer, id);
        drop_cids(&mut self.routing_cids, &entry.routing_cids, id);
        proof {
            assert forall|i: int| 0 <= i < entry.short_cids@.len() implies (#[trigger] entry.short_cids@[i])@.len()
                <= MAX_CID_LEN by {
                assert(entry@.short[i] == entry.short_cids@[i]@);
                assert(entry@.short.contains(entry.short_cids@[i]@));
                assert(entry@.routing.contains(entry.short_cids@[i]@));
            }
        }
        drop_short_cids(&mut self.short_cids, &mut self.short_cid_lengths, &entry.short_cids, id);
        proof {
            assert(self.peers@ =~= model::peer_rel(after));
            assert(self.routing_cids@ =~= model::routing_rel(after));
            assert(self.short_cids@ =~= model::short_rel(after));
            assert forall|x: u64| #[trigger] model::inspecting(self@, x) implies self.deadlines@.contains(
                model::deadline_of(self@, x),
            ) by {
                assert(model::inspecting(m, x));
            }
        }
    }

    /// Let a flow be known by a connection id.
    pub fn add_routing_cid(&mut self, id: u64, cid: &[u8], short_header: bool)
        requires
            old(self).valid(),
        ensures
            final(self).valid(),
            final(self).next() == old(self).next(),
            final(self)@ == (if old(self)@.contains_key(id) {
                old(self)@.insert(id, old(self)@[id].with_cid(cid@, short_header))
            } else {
                old(self)@
            }),
    {
        let ghost before = *self;
        let ghost m = self@;
        if cid.len() == 0 || cid.len() > MAX_CID_LEN {
            assert(m.contains_key(id) ==> m.insert(id, m[id]) =~= m);
            return;
        }
        let mut entry = match self.entries.remove(&id) {
            Some(entry) => entry,
            None => {
                assert(flows_of(self.entries@) =~= m);
                return;
            },
        };
        proof {
            assert(before.entries@.contains_key(id) && before.entries@[id] == entry);
            assert(m.contains_key(id) && m[id] == entry@ && entry.valid());
        }
        let ghost flow = entry@;
        let known = has_cid(&entry.routing_cids, cid);
        if !known && entry.routing_cids.len() >= MAX_CIDS_PER_FLOW {
            self.entries.insert(id, entry);
            proof {
                assert(self.entries@ =~= before.entries@);
                assert(m.insert(id, m[id]) =~= m);
            }
            return;
        }
        let ghost after = m.insert(id, flow.with_cid(cid@, short_header));
        if !known {
            entry.routing_cids.push(to_vec(cid));
            self.routing_cids.insert(to_vec(cid), id);
            assert(views(entry.routing_cids@) =~= flow.routing.push(cid@));
        }
        let learn = short_header && !has_cid(&entry.short_cids, cid);
        if learn {
            entry.short_cids.push(to_vec(cid));
            assert(views(entry.short_cids@) =~= flow.short.push(cid@));
            let ghost rel = self.short_cids@;
            let ghost counts = self.short_cid_lengths@;
            let fresh = self.short_cids.insert(to_vec(cid), id);
            proof {
                lemma_keys_after_insert(rel, cid@, id);
            }
            if fresh {
                let n = cid.len();
                let total = self.short_cids.len();
                proof {
                    let keys = index::owned_keys(self.short_cids@);
                    assert(counts[n as int] == keys_of_len(rel, n as int).len());
                    assert(!index::owned_keys(rel).contains(cid@));
                    vstd::set_lib::lemma_len_subset(keys_of_len(rel, n as int), index::owned_keys(rel));
                    assert(keys.len() == index::owned_keys(rel).len() + 1);
                    assert(counts[n as int] < total);
                }
                self.short_cid_lengths.set(n, self.short_cid_lengths[n] + 1);
                proof {
                    lemma_lengths_after_insert(counts, self.short_cid_lengths@, rel, self.short_cids@, cid@);
                }
            } else {
                proof {
                    assert(index::owned_keys(rel).insert(cid@) =~= index::owned_keys(rel));
                    lemma_same_lengths(counts, rel, self.short_cids@);
                }
            }
        }
        proof {
            assert(entry@ == flow.with_cid(cid@, short_header));
            lemma_with_cid(flow, cid@, short_header);
        }
        self.entries.insert(id, entry);
        proof {
            assert(self@ =~= after);
            assert(entries_valid(self.entries@)) by {
                assert forall|x: u64| #[trigger] self.entries@.contains_key(x) implies self.entries@[x].valid() by {
                    if x != id {
                        assert(before.entries@.contains_key(x));
                    }
                }
            }
            model::lemma_counts_change(m, after, id);
            assert(self.peers@ =~= model::peer_rel(after));
            assert(self.routing_cids@ =~= model::routing_rel(after)) by {
                lemma_rel_after_cids(m, after, id, cid@, short_header);
            }
            assert(self.short_cids@ =~= model::short_rel(after)) by {
                lemma_rel_after_cids(m, after, id, cid@, short_header);
            }
            assert forall|x: u64| #[trigger] model::inspecting(self@, x) implies self.deadlines@.contains(
                model::deadline_of(self@, x),
            ) by {
                assert(model::inspecting(m, x));
            }
        }
    }

    /// Learn from a server's long header: its source connection id is one that
    /// the client may use from now on. A Version Negotiation header is the
    /// exception, since it echoes what the client chose itself.
    pub fn observe_upstream_header(&mut self, id: u64, header: &LongHeader<'_>)
        requires
            old(self).valid(),
        ensures
            final(self).valid(),
            final(self).next() == old(self).next(),
            final(self)@ == model::with_upstream_header(old(self)@, id, header@),
    {
        if header.version == 0 {
            return;
        }
        self.add_routing_cid(id, header.scid, true);
    }

    /// Take in a flow that is not routed yet.
    pub fn insert_inspecting(&mut self, peer: SocketAddr, now: Instant, initial_dcid: Option<&[u8]>) -> (id: u64)
        requires
            old(self).valid(),
            !old(self)@.contains_key(old(self).next()),
            model::inspecting_count(old(self)@) < usize::MAX,
            now.valid(),
        ensures
            final(self).valid(),
            id == old(self).next(),
            final(self).next() == model::id_after(id),
            final(self)@ == old(self)@.insert(
                id,
                model::new_flow(
                    peer,
                    now,
                    match initial_dcid {
                        Some(cid) => Some(cid@),
                        None => None,
                    },
                ),
            ),
    {
        let ghost before = *self;
        let ghost m = self@;
        let id = self.next_id;
        self.next_id = if id == u64::MAX {
            1
        } else {
            id + 1
        };
        let entry = FlowEntry {
            peer,
            routing_cids: Vec::new(),
            short_cids: Vec::new(),
            state: FlowState::Inspecting(InspectingFlow::new(now)),
        };
        let ghost bare = model::new_flow(peer, now, None);
        proof {
            assert(views(entry.routing_cids@) =~= Seq::<Seq<u8>>::empty());
            assert(views(entry.short_cids@) =~= Seq::<Seq<u8>>::empty());
            assert(entry@ == bare);
            assert(!before.entries@.contains_key(id));
        }
        self.entries.insert(id, entry);
        self.inspecting_count = self.inspecting_count + 1;
        let ghost after = m.insert(id, bare);
        proof {
            assert(self@ =~= after);
            assert(entries_valid(self.entries@)) by {
                assert forall|x: u64| #[trigger] self.entries@.contains_key(x) implies self.entries@[x].valid() by {
                    if x != id {
                        assert(before.entries@.contains_key(x));
                    }
                }
            }
            model::lemma_counts_change(m, after, id);
        }
        let first = Deadline {
            at: Instant { nanos: now.nanos + INITIAL_INSPECTION_TIMEOUT_NANOS },
            id,
            generation: 0,
        };
        schedule(&mut self.deadlines, &self.entries, first);
        self.peers.insert(peer, id);
        proof {
            assert(model::deadline_of(after, id) == first);
            assert forall|x: u64| #[trigger] model::inspecting(self@, x) implies self.deadlines@.contains(
                model::deadline_of(self@, x),
            ) by {
                if x != id {
                    assert(model::inspecting(m, x));
                }
                assert(is_current(after, model::deadline_of(after, x)));
            }
            assert(self.peers@ =~= model::peer_rel(after));
            assert(self.routing_cids@ =~= model::routing_rel(after));
            assert(self.short_cids@ =~= model::short_rel(after));
        }
        match initial_dcid {
            Some(cid) => {
                self.add_routing_cid(id, cid, false);
                assert(self@ =~= m.insert(id, bare.with_cid(cid@, false)));
            },
            None => {},
        }
        id
    }

    /// Note that a flow was reached from a new client address. Says whether the
    /// address changed.
    pub fn migrate_peer(&mut self, id: u64, new_peer: SocketAddr) -> (r: bool)
        requires
            old(self).valid(),
        ensures
            final(self).valid(),
            final(self).next() == old(self).next(),
            final(self)@ == model::with_peer(old(self)@, id, new_peer),
            r == (old(self)@.contains_key(id) && old(self)@[id].peer != new_peer),
    {
        let ghost before = *self;
        let ghost m = self@;
        let mut entry = match self.entries.remove(&id) {
            Some(entry) => entry,
            None => {
                assert(flows_of(self.entries@) =~= m);
                return false;
            },
        };
        proof {
            assert(before.entries@.contains_key(id) && before.entries@[id] == entry);
            assert(m.contains_key(id) && m[id] == entry@ && entry.valid());
        }
        let ghost flow = entry@;
        let old_peer = entry.peer;
        entry.peer = new_peer;
        let ghost after = model::with_peer(m, id, new_peer);
        assert(entry@ == FlowView { peer: new_peer, ..flow });
        self.entries.insert(id, entry);
        proof {
            assert(self@ =~= after);
            assert(entries_valid(self.entries@)) by {
                assert forall|x: u64| #[trigger] self.entries@.contains_key(x) implies self.entries@[x].valid() by {
                    if x != id {
                        assert(before.entries@.contains_key(x));
                    }
                }
            }
            model::lemma_counts_change(m, after, id);
            assert(self.routing_cids@ =~= model::routing_rel(after));
            assert(self.short_cids@ =~= model::short_rel(after));
            assert forall|x: u64| #[trigger] model::inspecting(self@, x) implies self.deadlines@.contains(
                model::deadline_of(self@, x),
            ) by {
                assert(model::inspecting(m, x));
            }
        }
        if old_peer == new_peer {
            assert(self.peers@ =~= model::peer_rel(after));
            return false;
        }
        self.peers.remove(&old_peer, id);
        self.peers.insert(new_peer, id);
        assert(self.peers@ =~= model::peer_rel(after));
        true
    }

    /// Buffer a datagram on a flow that is not routed yet, and inspect it.
    pub fn inspect_datagram(&mut self, id: u64, datagram: &[u8], now: Instant) -> (r: InspectResult)
        requires
            old(self).valid(),
            now.valid(),
            model::inspection_bytes(old(self)@) + 65536 <= usize::MAX,
        ensures
            final(self).valid(),
            final(self).next() == old(self).next(),
            (final(self)@, r@) == model::with_inspected(old(self)@, id, datagram@, now),
    {
        let ghost before = *self;
        let ghost m = self@;
        let entry = match self.entries.remove(&id) {
            Some(entry) => entry,
            None => {
                assert(flows_of(self.entries@) =~= m);
                return InspectResult::Invalid;
            },
        };
        proof {
            assert(before.entries@.contains_key(id) && before.entries@[id] == entry);
            assert(m.contains_key(id) && m[id] == entry@ && entry.valid());
        }
        let ghost whole = entry;
        let FlowEntry { peer, routing_cids, short_cids, state } = entry;
        let mut flow = match state {
            FlowState::Inspecting(flow) => flow,
            FlowState::Forwarding => {
                self.entries.insert(id, FlowEntry { peer, routing_cids, short_cids, state: FlowState::Forwarding });
                assert(self.entries@ =~= before.entries@);
                return InspectResult::Invalid;
            },
        };
        let ghost old_flow = flow@;
        let held = flow.retained_bytes();
        let pushed = flow.packets.len() < MAX_INITIAL_DATAGRAMS && datagram.len() <= MAX_INITIAL_BYTES && flow.bytes
            <= MAX_INITIAL_BYTES - datagram.len();
        assert(views(flow.packets@).len() == flow.packets@.len());
        assert(pushed == old_flow.accepts(datagram@));
        let inspection = flow.inspect(datagram, now);
        let holds = flow.retained_bytes();
        let generation = flow.generation;
        let ghost new_flow = flow@;
        let ghost after = model::with_inspected(m, id, datagram@, now).0;
        let entry = FlowEntry { peer, routing_cids, short_cids, state: FlowState::Inspecting(flow) };
        assert(entry@ == FlowView { state: StateView::Inspecting(new_flow), ..m[id] });
        self.entries.insert(id, entry);
        proof {
            assert(self@ =~= after);
            assert(entries_valid(self.entries@)) by {
                assert forall|x: u64| #[trigger] self.entries@.contains_key(x) implies self.entries@[x].valid() by {
                    if x != id {
                        assert(before.entries@.contains_key(x));
                    }
                }
            }
            model::lemma_counts_change(m, after, id);
        }
        self.inspection_bytes = self.inspection_bytes - held + holds;
        proof {
            assert(self.peers@ =~= model::peer_rel(after));
            assert(self.routing_cids@ =~= model::routing_rel(after));
            assert(self.short_cids@ =~= model::short_rel(after));
        }
        if pushed {
            let next = Deadline {
                at: Instant { nanos: now.nanos + INITIAL_INSPECTION_TIMEOUT_NANOS },
                id,
                generation,
            };
            assert(new_flow.last_activity == now);
            assert(model::deadline_of(after, id) == next);
            schedule(&mut self.deadlines, &self.entries, next);
        }
        proof {
            assert forall|x: u64| #[trigger] model::inspecting(self@, x) implies self.deadlines@.contains(
                model::deadline_of(self@, x),
            ) by {
                assert(model::inspecting(m, x));
                assert(is_current(after, model::deadline_of(after, x)));
                if x == id && !pushed {
                    assert(new_flow == old_flow);
                }
            }
        }
        inspection
    }

    /// Let a flow be routed. Says whether it exists.
    pub fn promote(&mut self, id: u64) -> (r: bool)
        requires
            old(self).valid(),
        ensures
            final(self).valid(),
            final(self).next() == old(self).next(),
            final(self)@ == model::with_promoted(old(self)@, id),
            r == old(self)@.contains_key(id),
    {
        let ghost before = *self;
        let ghost m = self@;
        let mut entry = match self.entries.remove(&id) {
            Some(entry) => entry,
            None => {
                assert(flows_of(self.entries@) =~= m);
                return false;
            },
        };
        let ghost after = model::with_promoted(m, id);
        proof {
            assert(before.entries@.contains_key(id) && before.entries@[id] == entry);
            assert(m.contains_key(id) && m[id] == entry@ && entry.valid());
            model::lemma_counts_change(m, after, id);
        }
        match &entry.state {
            FlowState::Inspecting(flow) => {
                self.inspecting_count = self.inspecting_count - 1;
                self.inspection_bytes = self.inspection_bytes - flow.retained_bytes();
            },
            FlowState::Forwarding => {},
        }
        entry.state = FlowState::Forwarding;
        assert(entry@ == FlowView { state: StateView::Forwarding, ..m[id] });
        self.entries.insert(id, entry);
        proof {
            assert(self@ =~= after);
            assert(entries_valid(self.entries@)) by {
                assert forall|x: u64| #[trigger] self.entries@.contains_key(x) implies self.entries@[x].valid() by {
                    if x != id {
                        assert(before.entries@.contains_key(x));
                    }
                }
            }
            assert(self.peers@ =~= model::peer_rel(after));
            assert(self.routing_cids@ =~= model::routing_rel(after));
            assert(self.short_cids@ =~= model::short_rel(after));
            assert forall|x: u64| #[trigger] model::inspecting(self@, x) implies self.deadlines@.contains(
                model::deadline_of(self@, x),
            ) by {
                assert(model::inspecting(m, x));
            }
        }
        true
    }
}

proof fn lemma_with_cid(flow: FlowView, cid: Seq<u8>, short_header: bool)
    requires
        flow.bounded(),
    ensures
        flow.with_cid(cid, short_header).bounded(),
{
    let after = flow.with_cid(cid, short_header);
    if cid.len() > 0 && cid.len() <= MAX_CID_LEN {
        assert forall|c: Seq<u8>| #[trigger] after.routing.contains(c) implies 0 < c.len() <= MAX_CID_LEN by {
            let k = choose|k: int| 0 <= k < after.routing.len() && after.routing[k] == c;
            if k < flow.routing.len() {
                assert(flow.routing[k] == c);
                assert(flow.routing.contains(c));
            }
        }
        assert forall|c: Seq<u8>| #[trigger] after.short.contains(c) implies after.routing.contains(c) by {
            let k = choose|k: int| 0 <= k < after.short.len() && after.short[k] == c;
            if k < flow.short.len() {
                assert(flow.short[k] == c);
                assert(flow.short.contains(c));
                assert(flow.routing.contains(c));
                let j = choose|j: int| 0 <= j < flow.routing.len() && flow.routing[j] == c;
                assert(after.routing[j] == c);
            } else {
                assert(c == cid);
                if !flow.routing.contains(cid) {
                    assert(after.routing[flow.routing.len() as int] == cid);
                }
            }
        }
    }
}

/// What a connection id more on one flow does to the relations.
proof fn lemma_rel_after_cids(m: FlowMap, after: FlowMap, id: u64, cid: Seq<u8>, short_header: bool)
    requires
        m.contains_key(id),
        0 < cid.len() <= MAX_CID_LEN,
        m[id].routing.contains(cid) || m[id].routing.len() < MAX_CIDS_PER_FLOW,
        after == m.insert(id, m[id].with_cid(cid, short_header)),
    ensures
        model::routing_rel(after) =~= model::routing_rel(m).insert((cid, id)),
        short_header ==> model::short_rel(after) =~= model::short_rel(m).insert((cid, id)),
        !short_header ==> model::short_rel(after) =~= model::short_rel(m),
{
    lemma_push_contains(m[id].routing, cid);
    lemma_push_contains(m[id].short, cid);
}

proof fn lemma_push_contains(list: Seq<Seq<u8>>, cid: Seq<u8>)
    ensures
        forall|c: Seq<u8>| #[trigger] list.push(cid).contains(c) <==> list.contains(c) || c == cid,
{
    assert forall|c: Seq<u8>| #[trigger] list.push(cid).contains(c) <==> list.contains(c) || c == cid by {
        if list.contains(c) {
            let k = choose|k: int| 0 <= k < list.len() && list[k] == c;
            assert(list.push(cid)[k] == c);
        }
        assert(list.push(cid)[list.len() as int] == cid);
        if list.push(cid).contains(c) {
            let k = choose|k: int| 0 <= k < list.push(cid).len() && list.push(cid)[k] == c;
            if k < list.len() {
                assert(list[k] == c);
            }
        }
    }
}

impl FlowTable {
    // -- giving way ---------------------------------------------------------

    /// Forget the flow that is not routed yet and runs out of time first. Says
    /// whether there was one.
    pub fn evict_oldest_inspecting(&mut self) -> (r: bool)
        requires
            old(self).valid(),
        ensures
            final(self).valid(),
            final(self).next() == old(self).next(),
            match model::oldest(old(self)@) {
                Some(id) => r && final(self)@ == old(self)@.remove(id) && model::inspecting(old(self)@, id),
                None => !r && final(self)@ == old(self)@ && forall|id: u64| !#[trigger] model::inspecting(old(self)@, id),
            },
    {
        let ghost m = self@;
        loop
            invariant
                self.valid(),
                self@ == m,
                m == old(self)@,
                self.next() == old(self).next(),
            decreases self.deadlines@.len(),
        {
            let ghost queued = self.deadlines@;
            let d = match pop_first(&mut self.deadlines) {
                Some(d) => d,
                None => {
                    proof {
                        assert forall|id: u64| !#[trigger] model::inspecting(m, id) by {
                            if model::inspecting(m, id) {
                                assert(queued.contains(model::deadline_of(m, id)));
                            }
                        }
                    }
                    return false;
                },
            };
            if check_current(&self.entries, &d) {
                proof {
                    assert forall|x: u64| #[trigger] model::inspecting(m, x) implies model::deadline_of(m, d.id).not_after(
                        model::deadline_of(m, x),
                    ) by {
                        assert(queued.contains(model::deadline_of(m, x)));
                    }
                    assert(model::is_oldest(m, d.id));
                    let first = model::oldest(m)->0;
                    assert(model::is_oldest(m, first));
                    model::lemma_oldest_is_unique(m, d.id, first);
                }
                self.detach(d.id);
                return true;
            }
            proof {
                assert forall|x: u64| #[trigger] model::inspecting(self@, x) implies self.deadlines@.contains(
                    model::deadline_of(self@, x),
                ) by {
                    assert(queued.contains(model::deadline_of(m, x)));
                    assert(model::deadline_of(m, x) != d);
                }
            }
        }
    }

    /// Make room for a flow that is not routed yet. Only such flows give way, the
    /// oldest first: a flow that has been routed is never given up for one that
    /// has not. Says whether there is room now.
    pub fn make_room_for_inspecting(&mut self) -> (r: bool)
        requires
            old(self).valid(),
        ensures
            final(self).valid(),
            final(self).next() == old(self).next(),
            final(self)@ == model::made_room(old(self)@),
            r == model::has_room(final(self)@),
    {
        loop
            invariant
                self.valid(),
                self.next() == old(self).next(),
                model::made_room(self@) == model::made_room(old(self)@),
            decreases self@.len(),
        {
            proof {
                self.lemma_valid();
            }
            let (inspecting, bytes) = self.inspecting_stats();
            if self.len() < MAX_FLOWS && inspecting < MAX_INSPECTING_FLOWS && bytes < MAX_INSPECTION_BYTES {
                return true;
            }
            let ghost m = self@;
            if !self.evict_oldest_inspecting() {
                return false;
            }
            proof {
                let id = model::oldest(m)->0;
                assert(m.contains_key(id));
                assert(m.remove(id).len() == m.len() - 1);
            }
        }
    }

    /// Forget the flows that are not routed yet and have run out of time.
    pub fn prune_stale_inspecting(&mut self, now: Instant)
        requires
            old(self).valid(),
        ensures
            final(self).valid(),
            final(self).next() == old(self).next(),
            final(self)@ == model::pruned(old(self)@, now),
    {
        let ghost m = self@;
        loop
            invariant_except_break
                self.valid(),
            invariant
                self.valid(),
                m == old(self)@,
                self.next() == old(self).next(),
                forall|id: u64| #[trigger] self@.contains_key(id) ==> m.contains_key(id) && self@[id] == m[id],
                forall|id: u64| #[trigger] m.contains_key(id) && !self@.contains_key(id) ==> model::stale(m, id, now),
            ensures
                forall|id: u64| #[trigger] model::inspecting(self@, id) ==> model::deadline_of(self@, id).at.nanos
                    > now.nanos,
            decreases self.deadlines@.len(),
        {
            if self.deadlines.len() == 0 {
                proof {
                    assert forall|id: u64| #[trigger] model::inspecting(self@, id) implies model::deadline_of(
                        self@,
                        id,
                    ).at.nanos > now.nanos by {
                        assert(self.deadlines@.contains(model::deadline_of(self@, id)));
                    }
                }
                break;
            }
            let first = first_index(&self.deadlines);
            if self.deadlines[first].at.nanos > now.nanos {
                proof {
                    assert forall|id: u64| #[trigger] model::inspecting(self@, id) implies model::deadline_of(
                        self@,
                        id,
                    ).at.nanos > now.nanos by {
                        assert(self.deadlines@.contains(model::deadline_of(self@, id)));
                    }
                }
                break;
            }
            let ghost queued = self.deadlines@;
            let ghost here = self@;
            let ghost due = queued[first as int];
            match pop_first(&mut self.deadlines) {
                Some(d) => {
                    proof {
                        assert(queued.contains(due));
                        assert(d.not_after(due));
                    }
                    if check_current(&self.entries, &d) {
                        proof {
                            assert forall|x: u64| #[trigger] model::inspecting(here, x) && x != d.id implies
                                self.deadlines@.contains(model::deadline_of(here, x)) by {
                                assert(queued.contains(model::deadline_of(here, x)));
                                assert(model::deadline_of(here, x).id == x);
                            }
                            assert(here.contains_key(d.id));
                            assert(model::stale(m, d.id, now));
                        }
                        self.detach(d.id);
                    } else {
                        proof {
                            assert forall|x: u64| #[trigger] model::inspecting(self@, x) implies
                                self.deadlines@.contains(model::deadline_of(self@, x)) by {
                                assert(queued.contains(model::deadline_of(here, x)));
                                assert(model::deadline_of(here, x) != d);
                            }
                        }
                    }
                },
                None => {},
            }
        }
        proof {
            let kept = model::pruned(m, now);
            assert forall|id: u64| self@.contains_key(id) <==> #[trigger] kept.contains_key(id) by {
                if self@.contains_key(id) && model::stale(m, id, now) {
                    assert(model::inspecting(self@, id));
                }
            }
            assert(self@ =~= kept);
        }
    }
}

impl FlowTable {
    /// Which flows are found by which client address.
    pub closed spec fn peer_index(&self) -> Set<(SocketAddr, u64)> {
        self.peers@
    }

    /// Which flows long headers find by which connection id.
    pub closed spec fn routing_index(&self) -> Set<(Seq<u8>, u64)> {
        self.routing_cids@
    }

    /// Which flows short headers find by which connection id.
    pub closed spec fn short_index(&self) -> Set<(Seq<u8>, u64)> {
        self.short_cids@
    }

    /// How many keys the three indexes keep.
    pub closed spec fn kept_keys(&self) -> (nat, nat, nat) {
        (self.peers.kept(), self.routing_cids.kept(), self.short_cids.kept())
    }

    /// How many short-header connection ids there are of each length.
    pub closed spec fn short_lengths(&self) -> Seq<usize> {
        self.short_cid_lengths@
    }

    /// The indexes of a table say of its flows exactly what is true of them: they
    /// find a flow by what it is known by and nothing else, keep no key without an
    /// owner, and count the short-header connection ids of each length.
    pub proof fn law_indexes_are_true(&self)
        requires
            self.valid(),
        ensures
            self.peer_index() == model::peer_rel(self@),
            self.routing_index() == model::routing_rel(self@),
            self.short_index() == model::short_rel(self@),
            self.kept_keys() == (
                index::owned_keys(self.peer_index()).len(),
                index::owned_keys(self.routing_index()).len(),
                index::owned_keys(self.short_index()).len(),
            ),
            forall|n: int|
                0 <= n <= MAX_CID_LEN ==> #[trigger] self.short_lengths()[n] == keys_of_len(self.short_index(), n).len(),
    {
        self.peers.lemma_kept();
        self.routing_cids.lemma_kept();
        self.short_cids.lemma_kept();
    }

    /// A flow that was removed is nowhere: no index finds it, no key is kept for it
    /// alone, and it is not counted any more. Every other flow stays as it was and is
    /// found as before. Removing an unknown flow changes nothing.
    pub proof fn law_a_removed_flow_is_nowhere(before: FlowTable, after: FlowTable, id: u64)
        requires
            before.valid(),
            after.valid(),
            after@ == before@.remove(id),
        ensures
            !after@.contains_key(id),
            forall|key: SocketAddr| !#[trigger] after.peer_index().contains((key, id)),
            forall|key: Seq<u8>| !#[trigger] after.routing_index().contains((key, id)),
            forall|key: Seq<u8>| !#[trigger] after.short_index().contains((key, id)),
            after.kept_keys() == (
                index::owned_keys(after.peer_index()).len(),
                index::owned_keys(after.routing_index()).len(),
                index::owned_keys(after.short_index()).len(),
            ),
            forall|n: int|
                0 <= n <= MAX_CID_LEN ==> #[trigger] after.short_lengths()[n] == keys_of_len(after.short_index(), n).len(),
            model::inspecting_count(after@) == model::inspecting_count(before@) - (if model::inspecting(before@, id) {
                1int
            } else {
                0
            }),
            model::inspection_bytes(after@) == model::inspection_bytes(before@) - (if model::inspecting(before@, id) {
                before@[id].state->Inspecting_0.retained() as int
            } else {
                0
            }),
            forall|x: u64|
                x != id ==> #[trigger] after@.contains_key(x) == before@.contains_key(x) && (before@.contains_key(x)
                    ==> after@[x] == before@[x]),
            forall|key: SocketAddr, x: u64|
                x != id ==> #[trigger] after.peer_index().contains((key, x)) == before.peer_index().contains((key, x)),
            forall|key: Seq<u8>, x: u64|
                x != id ==> #[trigger] after.routing_index().contains((key, x)) == before.routing_index().contains(
                    (key, x),
                ),
            forall|key: Seq<u8>, x: u64|
                x != id ==> #[trigger] after.short_index().contains((key, x)) == before.short_index().contains((key, x)),
            !before@.contains_key(id) ==> after@ == before@ && after.peer_index() == before.peer_index()
                && after.routing_index() == before.routing_index() && after.short_index() == before.short_index(),
    {
        before.law_indexes_are_true();
        after.law_indexes_are_true();
        model::lemma_counts_change(before@, after@, id);
        if !before@.contains_key(id) {
            assert(after@ =~= before@);
        }
    }
}

impl Default for FlowTable {
    fn default() -> (r: Self)
        ensures
            r.valid(),
            r@ == Map::<u64, FlowView>::empty(),
            r.next() == 1,
    {
        FlowTable::new()
    }
}

} // verus!
