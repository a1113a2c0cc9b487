//! The value-level models around the server: addresses, the ICMP echo
//! factory, and the event loop's pure decisions.

use relay::addr::{AddressFamily, IpAddr, IpStack, SocketAddr};
use relay::event_loop::{next_source, portal_event_decision, portal_startup_decision,
    EventSource, PortalDecision, PortalEvent, StartupDecision};
use relay::icmp::{icmp_reply_packet, icmp_request_packet, icmp_response_packet, IcmpKind};
use relay::codec::{decode_binding_request, encode_binding_success};
use relay::message::TransactionId;

#[test]
fn families_follow_the_address() {
    assert_eq!(IpAddr::V4(0x7F000001).family(), AddressFamily::V4);
    assert_eq!(IpAddr::V6(1).family(), AddressFamily::V6);
    let endpoint = SocketAddr { ip: IpAddr::V4(1), port: 3478 };
    assert_eq!(endpoint.family(), AddressFamily::V4);
}

#[test]
fn ip_stack_exposes_its_addresses() {
    let dual = IpStack::Dual { ip4: 7, ip6: 9 };
    assert_eq!(dual.as_v4(), Some(7));
    assert_eq!(dual.as_v6(), Some(9));
    assert!(dual.has_family(AddressFamily::V4));
    assert!(dual.has_family(AddressFamily::V6));
    let only4 = IpStack::Ip4(7);
    assert_eq!(only4.as_v6(), None);
    assert!(!only4.has_family(AddressFamily::V6));
    assert_eq!(only4.address_for(AddressFamily::V4), Some(IpAddr::V4(7)));
}

#[test]
fn icmp_response_swaps_addresses() {
    let request = icmp_request_packet(IpAddr::V4(1), IpAddr::V4(2), 5, 42);
    assert_eq!(request.kind, IcmpKind::Request);
    let response = icmp_response_packet(request);
    assert_eq!(response.source, IpAddr::V4(2));
    assert_eq!(response.destination, IpAddr::V4(1));
    assert_eq!(response.seq, 5);
    assert_eq!(response.identifier, 42);
    assert_eq!(response.kind, IcmpKind::Response);
    let reply = icmp_reply_packet(IpAddr::V4(2), IpAddr::V4(1), 5, 42);
    assert_eq!(reply, response);
}

#[test]
fn source_priority_is_strict() {
    assert_eq!(next_source(true, true, true, true, true), Some(EventSource::Command));
    assert_eq!(next_source(false, true, true, true, true), Some(EventSource::Timer));
    assert_eq!(next_source(false, false, true, true, true), Some(EventSource::RelayData));
    assert_eq!(next_source(false, false, false, true, true), Some(EventSource::ClientData));
    assert_eq!(next_source(false, false, false, false, true), Some(EventSource::Portal));
    assert_eq!(next_source(false, false, false, false, false), None);
}

#[test]
fn portal_events_are_mostly_survivable() {
    assert_eq!(portal_event_decision(PortalEvent::JoinedRoom), PortalDecision::Continue);
    assert_eq!(portal_event_decision(PortalEvent::InboundInit), PortalDecision::Continue);
    assert_eq!(portal_event_decision(PortalEvent::DeserializeError), PortalDecision::Continue);
    assert_eq!(portal_event_decision(PortalEvent::HeartbeatSent), PortalDecision::Continue);
    assert_eq!(portal_event_decision(PortalEvent::ErrorResponse), PortalDecision::Continue);
    assert_eq!(portal_event_decision(PortalEvent::TransportError), PortalDecision::Fatal);
    assert_eq!(portal_event_decision(PortalEvent::InboundInitRequest), PortalDecision::Fatal);
}

#[test]
fn startup_gate_waits_for_init() {
    assert_eq!(portal_startup_decision(PortalEvent::InboundInit), StartupDecision::Ready);
    assert_eq!(portal_startup_decision(PortalEvent::JoinedRoom), StartupDecision::Wait);
    assert_eq!(portal_startup_decision(PortalEvent::HeartbeatSent), StartupDecision::Wait);
    assert_eq!(portal_startup_decision(PortalEvent::TransportError), StartupDecision::Fatal);
    assert_eq!(portal_startup_decision(PortalEvent::DeserializeError), StartupDecision::Fatal);
}

#[test]
fn binding_request_decodes_exactly() {
    let mut good = vec![0u8, 1, 0, 0, 0x21, 0x12, 0xA4, 0x42];
    good.extend_from_slice(&[1u8; 12]);
    assert_eq!(
        decode_binding_request(&good),
        Some(TransactionId(0x0101_0101_0101_0101_0101_0101))
    );
    let mut bad_cookie = good.clone();
    bad_cookie[4] = 0x22;
    assert_eq!(decode_binding_request(&bad_cookie), None);
    let mut bad_method = good.clone();
    bad_method[1] = 3;
    assert_eq!(decode_binding_request(&bad_method), None);
    let mut bad_length = good.clone();
    bad_length[3] = 4;
    assert_eq!(decode_binding_request(&bad_length), None);
    assert_eq!(decode_binding_request(&good[..12].to_vec()), None);
}

#[test]
fn binding_success_encodes_exactly() {
    let mapped = SocketAddr {
        ip: IpAddr::V4(u32::from_be_bytes([203, 0, 113, 7])),
        port: 4242,
    };
    let bytes = encode_binding_success(TransactionId(0x0101_0101_0101_0101_0101_0101), mapped);
    let mut expected = vec![1u8, 1, 0, 12, 0x21, 0x12, 0xA4, 0x42];
    expected.extend_from_slice(&[1u8; 12]);
    // XOR-MAPPED-ADDRESS: 4242 ^ 0x2112 == 0x3180, 203.0.113.7 ^ cookie
    expected.extend_from_slice(&[0x00, 0x20, 0x00, 8, 0x00, 0x01, 0x31, 0x80]);
    expected.extend_from_slice(&[0xEA, 0x12, 0xD5, 0x45]);
    assert_eq!(bytes, expected);
}
