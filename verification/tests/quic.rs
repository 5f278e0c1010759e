use aes_gcm::aead::{AeadInPlace, KeyInit};
use aes_gcm::{Aes128Gcm, Nonce};
use sni_gate::config::{FailPolicy, RouteType};
use sni_gate::net::{IpAddr, SocketAddr};
use sni_gate::quic_initial::{read_varint, InitialInspector, InitialKeys, InitialSni, QUIC_V1};
use sni_gate::quic_proxy::dispatch::{
    admit_handshake, bind_addr, close_reason, display_sni, h3_transport_idle_timeout, raw_host,
    unsupported_fail_policies, Dispatch, Dispatcher, DropReason, Handshake, RawPermits, RawRefusal, RouteAction,
};
use sni_gate::quic_proxy::header::{is_quic_initial, LongHeader, QUIC_V2};
use sni_gate::quic_proxy::model::{
    INITIAL_INSPECTION_TIMEOUT_NANOS, MAX_CIDS_PER_FLOW, MAX_INSPECTING_FLOWS, MAX_INSPECTION_BYTES,
    MAX_INSPECTION_DEADLINE_ENTRIES,
};
use sni_gate::quic_proxy::table::FlowTable;
use sni_gate::quic_runtime::{AcquireError, ByteBudget, QuicEnv, QuicRuntimeLimits, QueuedDatagram};
use sni_gate::quic_socket::{
    receive, InboundDatagram, IngressSendError, QuicIngress, Receive, DISPATCH_QUEUE, H3_MAX_UDP_PAYLOAD_SIZE,
};
use sni_gate::time::{Duration, Instant};
use std::sync::Arc;
use tokio::sync::mpsc;

// ---------------------------------------------------------------------------
// Initial packets
// ---------------------------------------------------------------------------

fn varint(value: u64) -> Vec<u8> {
    if value < 64 {
        vec![value as u8]
    } else if value < 1 << 14 {
        ((value as u16) | 0x4000).to_be_bytes().to_vec()
    } else {
        panic!("test value is too large")
    }
}

fn seal_initial(dcid: &[u8], packet_number: u64, crypto_offset: u64, crypto: &[u8]) -> Vec<u8> {
    let mut plain = Vec::new();
    plain.push(0x06);
    plain.extend(varint(crypto_offset));
    plain.extend(varint(crypto.len() as u64));
    plain.extend_from_slice(crypto);

    let pn_len = 2usize;
    let length = pn_len + plain.len() + 16;
    let mut header = vec![0xc1];
    header.extend_from_slice(&QUIC_V1.to_be_bytes());
    header.push(dcid.len() as u8);
    header.extend_from_slice(dcid);
    header.push(0);
    header.push(0);
    header.extend(varint(length as u64));
    let pn_at = header.len();
    header.extend_from_slice(&(packet_number as u16).to_be_bytes());

    let keys = InitialKeys::client(dcid).unwrap();
    let nonce = keys.nonce(packet_number);
    let aead = Aes128Gcm::new_from_slice(&keys.key).unwrap();
    let mut body = plain;
    let tag = aead.encrypt_in_place_detached(Nonce::from_slice(&nonce), &header, &mut body).unwrap();
    body.extend_from_slice(&tag);
    let sample = &body[4 - pn_len..4 - pn_len + 16];
    let mask = keys.header_mask(sample).unwrap();
    header[0] ^= mask[0] & 0x0f;
    for i in 0..pn_len {
        header[pn_at + i] ^= mask[i + 1];
    }
    header.extend_from_slice(&body);
    header
}

fn client_hello(host: &str) -> Vec<u8> {
    let host = host.as_bytes();
    let mut sni = Vec::new();
    sni.extend_from_slice(&((1 + 2 + host.len()) as u16).to_be_bytes());
    sni.push(0);
    sni.extend_from_slice(&(host.len() as u16).to_be_bytes());
    sni.extend_from_slice(host);
    let mut extensions = Vec::new();
    extensions.extend_from_slice(&0u16.to_be_bytes());
    extensions.extend_from_slice(&(sni.len() as u16).to_be_bytes());
    extensions.extend_from_slice(&sni);
    let mut body = vec![0x03, 0x03];
    body.extend_from_slice(&[0; 32]);
    body.push(0);
    body.extend_from_slice(&2u16.to_be_bytes());
    body.extend_from_slice(&[0x13, 0x01]);
    body.extend_from_slice(&[1, 0]);
    body.extend_from_slice(&(extensions.len() as u16).to_be_bytes());
    body.extend_from_slice(&extensions);
    let mut hello = vec![1, (body.len() >> 16) as u8, (body.len() >> 8) as u8, body.len() as u8];
    hello.extend_from_slice(&body);
    hello
}

#[test]
fn reassembles_fragmented_initial_crypto_and_extracts_sni() {
    let hello = client_hello("router.test");
    let split = hello.len() / 2;
    let dcid = b"01234567";
    let first = seal_initial(dcid, 1, 0, &hello[..split]);
    let second = seal_initial(dcid, 2, split as u64, &hello[split..]);
    let mut inspector = InitialInspector::default();
    assert_eq!(inspector.ingest(&first), InitialSni::NeedMore);
    assert_eq!(inspector.ingest(&second), InitialSni::Name("router.test".to_string()));
}

#[test]
fn fragments_may_come_twice_and_in_any_order() {
    let hello = client_hello("router.test");
    let split = hello.len() / 2;
    let dcid = b"01234567";
    let first = seal_initial(dcid, 1, 0, &hello[..split]);
    let second = seal_initial(dcid, 2, split as u64, &hello[split..]);
    let mut inspector = InitialInspector::default();
    assert_eq!(inspector.ingest(&second), InitialSni::NeedMore);
    assert_eq!(inspector.ingest(&second), InitialSni::NeedMore);
    assert_eq!(inspector.ingest(&first), InitialSni::Name("router.test".to_string()));
}

#[test]
fn quic_varints_decode_at_each_width() {
    let cases = [
        (vec![0x25], 37),
        (vec![0x40, 0x25], 37),
        (vec![0x80, 0x00, 0x00, 0x25], 37),
        (vec![0xc0, 0, 0, 0, 0, 0, 0, 0x25], 37),
    ];
    for (bytes, expected) in cases {
        let mut at = 0;
        assert_eq!(read_varint(&bytes, &mut at), Ok(expected));
        assert_eq!(at, bytes.len());
    }
}

#[test]
fn a_forged_packet_is_not_believed() {
    let hello = client_hello("router.test");
    let mut packet = seal_initial(b"01234567", 1, 0, &hello);
    let last = packet.len() - 1;
    packet[last] ^= 1;
    let mut inspector = InitialInspector::default();
    assert_ne!(inspector.ingest(&packet), InitialSni::Name("router.test".to_string()));
}

// ---------------------------------------------------------------------------
// Flows
// ---------------------------------------------------------------------------

fn peer(port: u16) -> SocketAddr {
    SocketAddr::new(IpAddr::V4(0x7f000001), port)
}

const NOW: Instant = Instant { nanos: 1_000_000_000_000 };

fn after(millis: u64) -> Instant {
    Instant { nanos: NOW.nanos + millis as u128 * 1_000_000 }
}

fn long_header(version: u32, first: u8, dcid: &[u8], scid: &[u8]) -> Vec<u8> {
    let mut packet = vec![first];
    packet.extend_from_slice(&version.to_be_bytes());
    packet.push(dcid.len() as u8);
    packet.extend_from_slice(dcid);
    packet.push(scid.len() as u8);
    packet.extend_from_slice(scid);
    packet
}

#[test]
fn h3_fast_path_keeps_initial_packets_on_inspection_path() {
    let v1_initial = long_header(QUIC_V1, 0xc0, b"v1initial", b"client01");
    let v2_initial = long_header(QUIC_V2, 0xd0, b"v2initial", b"client02");
    let v1_handshake = long_header(QUIC_V1, 0xe0, b"handshake", b"client03");
    let short_header = [0x40, 0xaa, 0xbb, 0xcc];

    assert!(is_quic_initial(&v1_initial));
    assert!(is_quic_initial(&v2_initial));
    assert!(!is_quic_initial(&v1_handshake));
    assert!(!is_quic_initial(&short_header));
}

#[test]
fn h3_transport_idle_uses_longest_terminating_route() {
    assert_eq!(
        h3_transport_idle_timeout(&vec![
            (RouteType::Raw, Duration::from_secs(120)),
            (RouteType::H3, Duration::from_secs(10)),
            (RouteType::H3Ech, Duration::from_secs(45)),
        ]),
        Some(Duration::from_secs(45))
    );
}

#[test]
fn zero_h3_idle_disables_listener_transport_timeout() {
    assert_eq!(
        h3_transport_idle_timeout(&vec![
            (RouteType::H3, Duration::from_secs(60)),
            (RouteType::H3Ech, Duration::zero()),
        ]),
        None
    );
}

#[test]
fn stale_initial_flows_are_pruned_but_forwarding_flows_remain() {
    let stale = Instant { nanos: NOW.nanos - INITIAL_INSPECTION_TIMEOUT_NANOS - 1_000_000 };
    let mut flows = FlowTable::default();
    let stale_id = flows.insert_inspecting(peer(1000), stale, None);
    let live_id = flows.insert_inspecting(peer(1001), NOW, None);
    let forwarding_id = flows.insert_inspecting(peer(1002), NOW, None);
    assert!(flows.promote(forwarding_id));

    flows.prune_stale_inspecting(NOW);

    assert!(!flows.contains(stale_id));
    assert!(flows.contains(live_id));
    assert!(flows.contains(forwarding_id));
}

#[test]
fn refreshed_inspection_deadline_ignores_stale_heap_entry() {
    let initial = Instant { nanos: NOW.nanos - INITIAL_INSPECTION_TIMEOUT_NANOS - 1_000_000 };
    let mut flows = FlowTable::default();
    let id = flows.insert_inspecting(peer(1500), initial, None);

    let _ = flows.inspect_datagram(id, b"partial", NOW);
    flows.prune_stale_inspecting(NOW);
    assert!(flows.contains(id));
    assert_eq!(flows.inspecting_stats().0, 1);

    flows.prune_stale_inspecting(Instant { nanos: NOW.nanos + INITIAL_INSPECTION_TIMEOUT_NANOS });
    assert!(!flows.contains(id));
    assert_eq!(flows.inspecting_stats(), (0, 0));
}

#[test]
fn inspection_counters_update_on_buffer_promote_and_remove() {
    let mut flows = FlowTable::default();
    let first = flows.insert_inspecting(peer(1600), NOW, None);
    let second = flows.insert_inspecting(peer(1601), NOW, None);
    assert_eq!(flows.inspecting_stats(), (2, 0));

    let _ = flows.inspect_datagram(first, b"partial", after(1));
    assert_eq!(flows.inspecting_stats(), (2, b"partial".len()));

    assert!(flows.promote(first));
    assert_eq!(flows.inspecting_stats(), (1, 0));

    flows.remove(second);
    assert_eq!(flows.inspecting_stats(), (0, 0));
}

#[test]
fn stale_deadline_entries_are_compacted_under_flow_churn() {
    let mut flows = FlowTable::default();
    for index in 0..=MAX_INSPECTION_DEADLINE_ENTRIES {
        let id = flows.insert_inspecting(peer((20_000 + index) as u16), NOW, None);
        flows.remove(id);
    }

    assert!(flows.deadline_count() <= MAX_INSPECTION_DEADLINE_ENTRIES);
    assert_eq!(flows.inspecting_stats(), (0, 0));
}

#[test]
fn inspection_capacity_evicts_oldest_without_touching_forwarding() {
    let mut flows = FlowTable::default();
    let forwarding_id =
        flows.insert_inspecting(peer(8000), Instant { nanos: NOW.nanos - 60_000_000_000 }, None);
    assert!(flows.promote(forwarding_id));

    let mut oldest = None;
    for index in 0..MAX_INSPECTING_FLOWS {
        let id = flows.insert_inspecting(peer((10_000 + index) as u16), after(index as u64), None);
        oldest.get_or_insert(id);
    }
    assert_eq!(flows.inspecting_stats().0, MAX_INSPECTING_FLOWS);

    assert!(flows.make_room_for_inspecting());
    assert!(!flows.contains(oldest.unwrap()));
    assert!(flows.contains(forwarding_id));
    assert_eq!(flows.inspecting_stats().0, MAX_INSPECTING_FLOWS - 1);
}

#[test]
fn inspection_byte_budget_evicts_oldest_inspecting() {
    let mut flows = FlowTable::default();
    // A packet of another version is kept without being read.
    let mut big = long_header(0xaaaaaaaa, 0xc0, b"anything", b"client99");
    big.resize(MAX_INSPECTION_BYTES / MAX_INSPECTING_FLOWS, 0);
    let mut ids = Vec::new();
    while flows.inspecting_stats().1 < MAX_INSPECTION_BYTES {
        let id = flows.insert_inspecting(peer(9000 + ids.len() as u16), after(ids.len() as u64), None);
        let _ = flows.inspect_datagram(id, &big, after(ids.len() as u64));
        ids.push(id);
        assert!(ids.len() <= MAX_INSPECTING_FLOWS);
    }
    assert!(flows.make_room_for_inspecting());
    assert!(!flows.contains(ids[0]));
    assert!(flows.inspecting_stats().1 < MAX_INSPECTION_BYTES);
}

#[test]
fn known_server_cid_rebinds_forwarding_flow_to_new_peer() {
    let (old_peer, new_peer) = (peer(2000), peer(3000));
    let mut flows = FlowTable::default();
    let id = flows.insert_inspecting(old_peer, NOW, Some(b"initial1"));
    let server_cid = b"server01";
    let response = long_header(QUIC_V1, 0xc0, b"client01", server_cid);
    let header = LongHeader::parse(&response).unwrap();
    flows.observe_upstream_header(id, &header);
    assert!(flows.promote(id));

    let packet = long_header(QUIC_V1, 0xe0, server_cid, b"client02");
    assert_eq!(flows.flow_id_for(new_peer, &packet, true), Some(id));
    assert!(flows.migrate_peer(id, new_peer));
    assert_eq!(flows.peer(id), Some(new_peer));
    assert_eq!(flows.unique_peer_owner(old_peer), None);
    assert_eq!(flows.unique_peer_owner(new_peer), Some(id));
}

#[test]
fn unknown_initial_on_same_peer_is_not_misrouted_to_existing_flow() {
    let mut flows = FlowTable::default();
    let _ = flows.insert_inspecting(peer(4000), NOW, Some(b"firstcid"));

    let second = long_header(QUIC_V1, 0xc0, b"secondid", b"client02");
    assert_eq!(flows.flow_id_for(peer(4000), &second, true), None);
}

#[test]
fn unknown_non_initial_long_header_does_not_peer_fallback() {
    let mut flows = FlowTable::default();
    let _ = flows.insert_inspecting(peer(4500), NOW, Some(b"firstcid"));

    let unknown = long_header(QUIC_V1, 0xe0, b"invented", b"client03");
    assert_eq!(flows.flow_id_for(peer(4500), &unknown, true), None);
}

#[test]
fn a_long_header_that_cannot_be_read_does_not_peer_fallback() {
    let mut flows = FlowTable::default();
    let id = flows.insert_inspecting(peer(4600), NOW, Some(b"firstcid"));

    // The length of the connection id is over the limit, or the header is cut.
    let overlong = [0xc0, 0, 0, 0, 1, 21, 0xaa, 0xaa];
    assert_eq!(flows.flow_id_for(peer(4600), &overlong, true), None);
    assert_eq!(flows.flow_id_for(peer(4600), &overlong[..3], true), None);
    assert_eq!(flows.flow_id_for(peer(4600), &[], true), None);
    assert_eq!(flows.flow_id_for(peer(4600), &[0x40], true), Some(id));
}

#[test]
fn client_initial_cid_is_not_eligible_for_short_header_matching() {
    let mut flows = FlowTable::default();
    let _ = flows.insert_inspecting(peer(4700), NOW, Some(b"clientcid"));
    let mut short = vec![0x40];
    short.extend_from_slice(b"clientcid");
    short.extend_from_slice(b"ciphertext");
    assert_eq!(flows.short_header_owner(&short), None);
}

#[test]
fn version_negotiation_scid_is_not_learned_as_a_short_header_cid() {
    let mut flows = FlowTable::default();
    let client_initial_dcid = b"clientcid";
    let id = flows.insert_inspecting(peer(4800), NOW, Some(client_initial_dcid));

    let version_negotiation = long_header(0, 0x80, b"clientsci", client_initial_dcid);
    let header = LongHeader::parse(&version_negotiation).unwrap();
    flows.observe_upstream_header(id, &header);

    assert_eq!(flows.routing_cid_count(id), 1);
    assert_eq!(flows.short_cid_count(id), 0);
    assert_eq!(flows.short_keys_of_len(client_initial_dcid.len()), 0);

    let mut short = vec![0x40];
    short.extend_from_slice(client_initial_dcid);
    short.extend_from_slice(b"ciphertext");
    assert_eq!(flows.short_header_owner(&short), None);
}

#[test]
fn upstream_scid_routes_short_header_after_rebinding() {
    let mut flows = FlowTable::default();
    let id = flows.insert_inspecting(peer(5000), NOW, Some(b"initial1"));
    let server_cid = b"srv-short";
    let response = long_header(QUIC_V1, 0xc0, b"client03", server_cid);
    let header = LongHeader::parse(&response).unwrap();
    flows.observe_upstream_header(id, &header);

    let mut short = vec![0x40];
    short.extend_from_slice(server_cid);
    short.extend_from_slice(b"ciphertext");
    assert_eq!(flows.flow_id_for(peer(6000), &short, true), Some(id));
    assert_eq!(flows.short_keys_of_len(server_cid.len()), 1);
    flows.remove(id);
    assert_eq!(flows.short_keys_of_len(server_cid.len()), 0);
}

#[test]
fn learned_cids_are_bounded_per_flow() {
    let mut flows = FlowTable::default();
    let id = flows.insert_inspecting(peer(6250), NOW, Some(b"initial1"));

    for value in 0u8..100 {
        let scid = [value; 8];
        let response = long_header(QUIC_V1, 0xc0, b"client04", &scid);
        let header = LongHeader::parse(&response).unwrap();
        flows.observe_upstream_header(id, &header);
    }

    assert_eq!(flows.routing_cid_count(id), MAX_CIDS_PER_FLOW);
    assert_eq!(flows.short_cid_count(id), MAX_CIDS_PER_FLOW - 1);
    assert_eq!(flows.routing_key_count(), MAX_CIDS_PER_FLOW);
    assert_eq!(flows.short_key_count(), MAX_CIDS_PER_FLOW - 1);
}

#[test]
fn shared_short_cid_length_stays_active_until_last_key_is_removed() {
    let mut flows = FlowTable::default();
    let first = flows.insert_inspecting(peer(6300), NOW, None);
    let second = flows.insert_inspecting(peer(6301), NOW, None);
    let response = long_header(QUIC_V1, 0xc0, b"client05", b"same-cid");
    let header = LongHeader::parse(&response).unwrap();
    flows.observe_upstream_header(first, &header);
    flows.observe_upstream_header(second, &header);
    assert_eq!(flows.short_keys_of_len(8), 1);

    flows.remove(first);
    assert_eq!(flows.short_keys_of_len(8), 1);
    flows.remove(second);
    assert_eq!(flows.short_keys_of_len(8), 0);
}

#[test]
fn mixed_listener_does_not_peer_fallback_unknown_datagram_to_raw() {
    let mut flows = FlowTable::default();
    let _ = flows.insert_inspecting(peer(6500), NOW, Some(b"raw-flow"));

    let unknown_short = [0x40, 0xaa, 0xbb, 0xcc];
    assert_eq!(flows.flow_id_for(peer(6500), &unknown_short, false), None);
    assert!(flows.flow_id_for(peer(6500), &unknown_short, true).is_some());
}

#[test]
fn quic_v2_initial_is_recognized_as_a_new_flow_boundary() {
    let mut flows = FlowTable::default();
    let _ = flows.insert_inspecting(peer(7000), NOW, Some(b"v2-first"));
    let second = long_header(QUIC_V2, 0xd0, b"v2-second", b"client04");
    let parsed = LongHeader::parse(&second).unwrap();
    assert!(parsed.is_initial());
    assert_eq!(flows.flow_id_for(peer(7000), &second, true), None);
}

// ---------------------------------------------------------------------------
// Dispatching
// ---------------------------------------------------------------------------

#[test]
fn a_flow_is_inspected_routed_and_forwarded() {
    let mut d = Dispatcher::new(&vec![RouteType::Raw]);
    assert!(!d.terminates_h3());
    let hello = client_hello("router.test");
    let split = hello.len() / 2;
    let dcid = b"01234567";
    let first = seal_initial(dcid, 1, 0, &hello[..split]);
    let second = seal_initial(dcid, 2, split as u64, &hello[split..]);
    assert!(matches!(d.on_datagram(peer(1), &first, NOW), Dispatch::Kept));
    let Dispatch::Route { flow, sni, packets } = d.on_datagram(peer(1), &second, after(1)) else {
        panic!("the name is complete");
    };
    assert_eq!(sni, "router.test");
    assert_eq!(packets, vec![first, second]);
    assert_eq!(d.on_routed(flow, Some(RouteType::Raw)), RouteAction::StartRaw);
    let permits = RawPermits { flow: true, connect: true, bytes: true };
    assert_eq!(d.admit_raw(flow, permits), Ok(peer(1)));

    let short = [0x40, 1, 2, 3];
    assert!(matches!(d.on_datagram(peer(1), &short, after(2)), Dispatch::Forward { flow: f, moved: false } if f == flow));

    let server = long_header(QUIC_V1, 0xc0, b"client01", b"server01");
    d.on_upstream(flow, &server);
    let mut moved = vec![0x40];
    moved.extend_from_slice(b"server01rest");
    assert!(matches!(d.on_datagram(peer(2), &moved, after(3)), Dispatch::Forward { flow: f, moved: true } if f == flow));
    assert_eq!(d.peer(flow), Some(peer(2)), "replies go to the latest address");
    d.forget(flow);
    assert_eq!(d.peer(flow), None);
}

#[test]
fn strangers_are_dropped_or_left_to_http3() {
    let short = [0x40, 1, 2, 3];
    let mut raw = Dispatcher::new(&vec![RouteType::Raw]);
    assert!(matches!(raw.on_datagram(peer(1), &short, NOW), Dispatch::Drop(DropReason::UnknownFlow)));
    let mut h3 = Dispatcher::new(&vec![RouteType::H3]);
    assert!(matches!(h3.on_datagram(peer(1), &short, NOW), Dispatch::ToH3));
    let mut mixed = Dispatcher::new(&vec![RouteType::H3, RouteType::Raw]);
    assert!(matches!(mixed.on_datagram(peer(1), &short, NOW), Dispatch::ToH3));
}

#[test]
fn a_raw_flow_without_permits_is_forgotten() {
    let hello = client_hello("router.test");
    let packet = seal_initial(b"01234567", 1, 0, &hello);
    for (flow_permit, connect, bytes, why) in [
        (false, true, true, RawRefusal::Flows),
        (true, false, true, RawRefusal::Connects),
        (true, true, false, RawRefusal::Bytes),
    ] {
        let mut d = Dispatcher::new(&vec![RouteType::Raw]);
        let Dispatch::Route { flow, .. } = d.on_datagram(peer(1), &packet, NOW) else {
            panic!("the name is complete");
        };
        let permits = RawPermits { flow: flow_permit, connect, bytes };
        assert_eq!(d.admit_raw(flow, permits), Err(why));
        assert_eq!(d.peer(flow), None);
    }
}

#[test]
fn handshakes_over_capacity_are_asked_to_prove_their_address() {
    assert_eq!(admit_handshake(true, false), Handshake::Accept);
    assert_eq!(admit_handshake(false, false), Handshake::Retry);
    assert_eq!(admit_handshake(false, true), Handshake::Refuse);
}

#[test]
fn only_http3_routes_serve_a_connection() {
    let types = vec![RouteType::Raw, RouteType::H3];
    assert_eq!(close_reason(None, &types).as_deref(), Some("unmatched H3 SNI"));
    assert_eq!(close_reason(Some(2), &types).as_deref(), Some("invalid H3 route"));
    assert_eq!(close_reason(Some(0), &types).as_deref(), Some("route is not HTTP/3"));
    assert_eq!(close_reason(Some(1), &types), None);
}

#[test]
fn quic_listeners_cannot_honour_other_fail_policies() {
    let pass = FailPolicy::Passthrough { addr: peer(9) };
    let routes = vec![FailPolicy::Close, FailPolicy::SystemOutbound, pass];
    assert_eq!(unsupported_fail_policies(FailPolicy::Close, &routes), (false, vec![1, 2]));
    assert_eq!(unsupported_fail_policies(FailPolicy::SystemOutbound, &routes), (true, vec![2]));
}

#[test]
fn a_raw_flow_dials_its_route_or_its_name() {
    assert_eq!(raw_host(&Some("up.test".into()), "a.test", "web"), Ok("up.test".to_string()));
    assert_eq!(raw_host(&None, "a.test", "web"), Ok("a.test".to_string()));
    assert_eq!(
        raw_host(&None, "", "web"),
        Err("raw QUIC route web reflects SNI but none was presented".to_string())
    );
    assert_eq!(bind_addr(IpAddr::V6(1)), SocketAddr::new(IpAddr::V6(0), 0));
    assert_eq!(bind_addr(IpAddr::V4(1)), SocketAddr::new(IpAddr::V4(0), 0));
    assert_eq!(display_sni(""), "<none>");
    assert_eq!(display_sni("a.test"), "a.test");
}

// ---------------------------------------------------------------------------
// Limits and budgets
// ---------------------------------------------------------------------------

#[test]
fn defaults_match_production_hardening_values() {
    let limits = QuicRuntimeLimits::default();
    assert_eq!(limits.max_pending_handshakes, 256);
    assert_eq!(limits.max_h3_connections, 1024);
    assert_eq!(limits.max_requests_per_connection, 256);
    assert_eq!(limits.max_field_section_size, 64 * 1024);
    assert_eq!(limits.max_upstream_pool_entries, 256);
    assert_eq!(limits.upstream_pool_idle, Duration::from_secs(60));
    assert_eq!(limits.max_pending_upstream_connects, 64);
    assert_eq!(limits.max_h3_ingress_bytes, 8 * 1024 * 1024);
    assert_eq!(limits.max_raw_forwarding_bytes, 64 * 1024 * 1024);
}

fn no_env() -> QuicEnv {
    QuicEnv {
        max_pending_handshakes: None,
        max_h3_connections: None,
        max_requests_per_connection: None,
        max_field_section_size: None,
        max_upstream_pool_entries: None,
        upstream_pool_idle_secs: None,
        max_pending_upstream_connects: None,
        max_h3_ingress_bytes: None,
        max_raw_forwarding_bytes: None,
    }
}

#[test]
fn the_environment_overrides_limits() {
    assert_eq!(QuicRuntimeLimits::from_env(&no_env()).unwrap(), QuicRuntimeLimits::default());
    let mut env = no_env();
    env.max_h3_connections = Some("7".to_string());
    assert_eq!(QuicRuntimeLimits::from_env(&env).unwrap().max_h3_connections, 7);
    env.max_h3_connections = Some("0".to_string());
    let err = QuicRuntimeLimits::from_env(&env).unwrap_err();
    assert!(err.contains("SNI_GATE_QUIC_MAX_H3_CONNECTIONS"), "{err}");
    env.max_h3_connections = Some("many".to_string());
    assert!(QuicRuntimeLimits::from_env(&env).is_err());
}

#[test]
fn byte_budget_releases_capacity_with_owned_permit() {
    let budget = ByteBudget::new(4);
    let permit = budget.try_acquire(4).unwrap();
    assert_eq!(permit.num_permits(), 4);
    assert_eq!(budget.available(), 0);
    assert!(budget.try_acquire(1).is_err());
    drop(permit);
    assert_eq!(budget.available(), 4);
    assert_eq!(budget.capacity(), 4);
}

#[test]
fn raw_forwarding_budget_tracks_queued_datagram_lifetime() {
    let budget = ByteBudget::new(4);
    let queued = QueuedDatagram::reserve(b"four".to_vec(), &budget).unwrap();
    assert_eq!(budget.available(), 0);
    assert!(QueuedDatagram::reserve(b"x".to_vec(), &budget).is_err());

    drop(queued);
    assert_eq!(budget.available(), 4);
    assert!(QueuedDatagram::reserve(b"x".to_vec(), &budget).is_ok());
}

#[test]
fn the_answer_of_the_budget_decides_on_a_datagram() {
    let budget = ByteBudget::new(4);
    assert_eq!(budget.permits_for(4), Some(4));
    assert_eq!(budget.permits_for(5), None);

    let queued = QueuedDatagram::granted(b"two".to_vec(), budget.try_acquire(3)).unwrap();
    assert_eq!(queued.bytes(), b"two");
    assert_eq!(budget.available(), 1);
    let back = QueuedDatagram::granted(b"two".to_vec(), Err(AcquireError::NoPermits)).unwrap_err();
    assert_eq!(back, b"two");
    drop(queued);

    let datagram = InboundDatagram::granted(peer(4433), b"four", budget.try_acquire(4)).unwrap();
    assert_eq!(datagram.bytes(), b"four");
    assert_eq!(datagram.peer(), peer(4433));
    assert_eq!(budget.available(), 0);
    let refused = InboundDatagram::granted(peer(4433), b"four", Err(AcquireError::Closed)).unwrap_err();
    assert_eq!(refused, IngressSendError::ByteBudgetExhausted);
}

#[test]
fn dropping_raw_flow_queue_releases_all_queued_bytes() {
    let budget = ByteBudget::new(8);
    let (tx, rx) = mpsc::channel(2);
    tx.try_send(QueuedDatagram::reserve(b"four".to_vec(), &budget).unwrap()).unwrap();
    tx.try_send(QueuedDatagram::reserve(b"more".to_vec(), &budget).unwrap()).unwrap();
    assert_eq!(budget.available(), 0);

    drop(rx);
    assert_eq!(budget.available(), 8);
}

#[test]
fn full_raw_flow_queue_releases_rejected_datagram_bytes() {
    let budget = ByteBudget::new(3);
    let (tx, rx) = mpsc::channel(1);
    tx.try_send(QueuedDatagram::reserve(b"x".to_vec(), &budget).unwrap()).unwrap();
    assert_eq!(budget.available(), 2);

    let error = tx.try_send(QueuedDatagram::reserve(b"y".to_vec(), &budget).unwrap()).unwrap_err();
    drop(error);
    assert_eq!(budget.available(), 2);

    drop(rx);
    assert_eq!(budget.available(), 3);
}

fn ingress(budget: &Arc<ByteBudget>) -> (QuicIngress, mpsc::Receiver<InboundDatagram>) {
    let (tx, rx) = mpsc::channel(DISPATCH_QUEUE);
    (QuicIngress::new(tx, H3_MAX_UDP_PAYLOAD_SIZE as usize, budget.clone()), rx)
}

#[test]
fn ingress_is_exposed_as_one_quinn_receive() {
    let budget = Arc::new(ByteBudget::new(1024 * 1024));
    let (ingress, mut rx) = ingress(&budget);
    ingress.try_send(peer(4433), b"quic-packet").unwrap();
    let got = rx.try_recv().unwrap();
    assert_eq!(got.bytes(), b"quic-packet");
    assert_eq!(got.peer(), peer(4433));
    assert_eq!(receive(got.bytes().len(), 64), Receive::Copy(b"quic-packet".len()));
}

#[test]
fn oversized_ingress_is_rejected_before_allocation() {
    let budget = Arc::new(ByteBudget::new(1024 * 1024));
    let (ingress, _rx) = ingress(&budget);
    let oversized = vec![0u8; ingress.max_datagram_size() + 1];
    assert_eq!(ingress.try_send(peer(4433), &oversized), Err(IngressSendError::Oversized));
    assert_eq!(budget.available(), 1024 * 1024);
}

#[test]
fn oversized_queued_datagram_does_not_kill_receive_path() {
    assert_eq!(receive(65, 64), Receive::Skip);
    assert_eq!(receive(4, 64), Receive::Copy(4));
}

#[test]
fn ingress_byte_budget_is_released_after_receive() {
    let budget = Arc::new(ByteBudget::new(4));
    let (ingress, mut rx) = ingress(&budget);

    ingress.try_send(peer(4433), b"four").unwrap();
    assert_eq!(budget.available(), 0);
    assert_eq!(ingress.try_send(peer(4433), b"x"), Err(IngressSendError::ByteBudgetExhausted));

    drop(rx.try_recv().unwrap());
    assert_eq!(budget.available(), 4);
    ingress.try_send(peer(4433), b"x").unwrap();
}

#[test]
fn closed_ingress_releases_reserved_bytes() {
    let budget = Arc::new(ByteBudget::new(4));
    let (ingress, rx) = ingress(&budget);
    drop(rx);
    assert_eq!(ingress.try_send(peer(4433), b"four"), Err(IngressSendError::Closed));
    assert_eq!(budget.available(), 4);
}

#[test]
fn full_ingress_queue_releases_rejected_datagram_bytes() {
    let budget = Arc::new(ByteBudget::new(DISPATCH_QUEUE + 1));
    let (ingress, rx) = ingress(&budget);

    for _ in 0..DISPATCH_QUEUE {
        ingress.try_send(peer(4433), b"x").unwrap();
    }
    assert_eq!(budget.available(), 1);
    assert_eq!(ingress.try_send(peer(4433), b"x"), Err(IngressSendError::QueueFull));
    assert_eq!(budget.available(), 1);

    drop(rx);
    assert_eq!(budget.available(), DISPATCH_QUEUE + 1);
}

#[test]
fn ingress_budget_is_shared_across_virtual_sockets() {
    let budget = Arc::new(ByteBudget::new(4));
    let (first, first_rx) = ingress(&budget);
    let (second, _second_rx) = ingress(&budget);
    first.try_send(peer(4433), b"four").unwrap();
    assert_eq!(second.try_send(peer(4433), b"x"), Err(IngressSendError::ByteBudgetExhausted));
    drop(first_rx);
    assert_eq!(budget.available(), 4);
    second.try_send(peer(4433), b"x").unwrap();
}
