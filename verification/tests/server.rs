//! End-to-end scenarios against the server state machine, with literal
//! values: binding, allocation, permissions, channels, relaying, expiry
//! and port exhaustion.

use base64::Engine;
use hmac::Mac;
use md5::Digest;
use rand::SeedableRng;
use relay::addr::{AddressFamily, IpAddr, IpStack, SocketAddr};
use relay::allocation::AllocationId;
use relay::command::Command;
use relay::message::{ClientMessage, Credentials, Message, TransactionId};
use relay::server::Server;

fn v4(a: u8, b: u8, c: u8, d: u8) -> IpAddr {
    IpAddr::V4(u32::from_be_bytes([a, b, c, d]))
}

fn sa(ip: IpAddr, port: u16) -> SocketAddr {
    SocketAddr { ip, port }
}

fn tid(b: u8) -> TransactionId {
    let mut value: u128 = 0;
    for _ in 0..12 {
        value = (value << 8) | b as u128;
    }
    TransactionId(value)
}

/// Derive the credentials the portal would issue, with the real crypto.
fn make_credentials(secret: &[u8], expiry: u64, salt: &str, realm: &str, covered: &[u8]) -> Credentials {
    let username = format!("{expiry}:{salt}").into_bytes();
    let mut prf = <hmac::Hmac<sha2::Sha256> as hmac::Mac>::new_from_slice(secret).unwrap();
    prf.update(&username);
    let digest = prf.finalize().into_bytes();
    let password = base64::engine::general_purpose::STANDARD
        .encode(&digest[..16])
        .into_bytes();
    let mut key_input = Vec::new();
    key_input.extend_from_slice(&username);
    key_input.push(b':');
    key_input.extend_from_slice(realm.as_bytes());
    key_input.push(b':');
    key_input.extend_from_slice(&password);
    let mut md5 = md5::Md5::new();
    md5.update(&key_input);
    let key = md5.finalize().to_vec();
    let mut mac = <hmac::Hmac<sha1::Sha1> as hmac::Mac>::new_from_slice(&key).unwrap();
    mac.update(covered);
    let mac = mac.finalize().into_bytes().to_vec();
    Credentials {
        username,
        realm: realm.as_bytes().to_vec(),
        nonce: 7,
        mac,
        covered: covered.to_vec(),
    }
}

fn server_v4(seed: u64, lowest: u16, highest: u16) -> Server {
    Server::new(
        IpStack::Ip4(u32::from_be_bytes([192, 0, 2, 1])),
        rand::rngs::StdRng::seed_from_u64(seed),
        lowest,
        highest,
    )
}

fn good_credentials(server: &Server, now: u64) -> Credentials {
    let secret = server.auth_secret().clone();
    make_credentials(&secret, now + 1000, "salt", "firezone", b"request-bytes")
}

fn drain(server: &mut Server) -> Vec<Command> {
    let mut out = Vec::new();
    while let Some(c) = server.next_command() {
        out.push(c);
    }
    out
}

/// A seed whose first port draw lands on the lowest port of a two-port
/// range, so the scenarios get the literal ports they expect.
const EVEN_SEED: u64 = 0;

#[test]
fn binding_probe() {
    let mut server = server_v4(EVEN_SEED, 49152, 49153);
    let client = sa(v4(203, 0, 113, 7), 4242);
    server.handle_client_input(ClientMessage::Binding { tid: tid(0x01) }, client, 1000);
    let cmds = drain(&mut server);
    assert_eq!(
        cmds,
        vec![Command::SendMessage {
            payload: Message::BindingSuccess { tid: tid(0x01), mapped: client },
            recipient: client,
        }]
    );
    assert!(server.allocations.is_empty());
    assert_eq!(server.next_deadline, None);
}

#[test]
fn allocate_happy_path() {
    let mut server = server_v4(EVEN_SEED, 49152, 49153);
    let client = sa(v4(198, 51, 100, 5), 50000);
    let credentials = good_credentials(&server, 1000);
    server.handle_client_input(
        ClientMessage::Allocate {
            tid: tid(0x02),
            credentials: Some(credentials),
            requested_transport: 17,
            lifetime: Some(600),
        },
        client,
        1000,
    );
    let cmds = drain(&mut server);
    assert_eq!(
        cmds,
        vec![
            Command::CreateAllocation {
                id: AllocationId(1),
                family: AddressFamily::V4,
                port: 49152,
            },
            Command::SendMessage {
                payload: Message::AllocateSuccess {
                    tid: tid(0x02),
                    relayed_v4: Some(sa(v4(192, 0, 2, 1), 49152)),
                    relayed_v6: None,
                    lifetime: 600,
                },
                recipient: client,
            },
            Command::Wake { deadline: 1600 },
        ]
    );
    assert_eq!(server.allocations.len(), 1);
    assert_eq!(server.allocations[0].expiry, 1600);
}

#[test]
fn send_through_allocation() {
    let mut server = server_v4(EVEN_SEED, 49152, 49153);
    let client = sa(v4(198, 51, 100, 5), 50000);
    let credentials = good_credentials(&server, 1000);
    server.handle_client_input(
        ClientMessage::Allocate {
            tid: tid(0x02),
            credentials: Some(credentials.clone()),
            requested_transport: 17,
            lifetime: Some(600),
        },
        client,
        1000,
    );
    drain(&mut server);
    let peer = sa(v4(192, 0, 2, 9), 1111);
    server.handle_client_input(
        ClientMessage::CreatePermission {
            tid: tid(0x03),
            credentials: Some(credentials),
            peer: sa(v4(192, 0, 2, 9), 0),
        },
        client,
        1010,
    );
    server.handle_client_input(
        ClientMessage::SendIndication { peer, data: b"hello".to_vec() },
        client,
        1010,
    );
    let cmds = drain(&mut server);
    assert_eq!(
        cmds,
        vec![
            Command::SendMessage {
                payload: Message::CreatePermissionSuccess { tid: tid(0x03) },
                recipient: client,
            },
            Command::ForwardData {
                id: AllocationId(1),
                data: b"hello".to_vec(),
                receiver: peer,
            },
            Command::Wake { deadline: 1310 },
        ]
    );
}

#[test]
fn peer_to_client_relay() {
    let mut server = server_v4(EVEN_SEED, 49152, 49153);
    let client = sa(v4(198, 51, 100, 5), 50000);
    let credentials = good_credentials(&server, 1000);
    server.handle_client_input(
        ClientMessage::Allocate {
            tid: tid(0x02),
            credentials: Some(credentials.clone()),
            requested_transport: 17,
            lifetime: Some(600),
        },
        client,
        1000,
    );
    server.handle_client_input(
        ClientMessage::CreatePermission {
            tid: tid(0x03),
            credentials: Some(credentials),
            peer: sa(v4(192, 0, 2, 9), 0),
        },
        client,
        1010,
    );
    drain(&mut server);
    let peer = sa(v4(192, 0, 2, 9), 1111);
    server.handle_relay_input(b"pong".to_vec(), peer, AllocationId(1));
    let cmds = drain(&mut server);
    assert_eq!(
        cmds,
        vec![Command::SendMessage {
            payload: Message::DataIndication { peer, data: b"pong".to_vec() },
            recipient: client,
        }]
    );
}

#[test]
fn allocation_expiry() {
    let mut server = server_v4(EVEN_SEED, 49152, 49153);
    let client = sa(v4(198, 51, 100, 5), 50000);
    let credentials = good_credentials(&server, 1000);
    server.handle_client_input(
        ClientMessage::Allocate {
            tid: tid(0x02),
            credentials: Some(credentials),
            requested_transport: 17,
            lifetime: Some(10),
        },
        client,
        1000,
    );
    drain(&mut server);
    server.handle_deadline_reached(1011);
    let cmds = drain(&mut server);
    assert_eq!(
        cmds,
        vec![Command::FreeAllocation { id: AllocationId(1), family: AddressFamily::V4 }]
    );
    // the allocation is gone: relayed input is dropped without a command
    server.handle_relay_input(b"late".to_vec(), sa(v4(192, 0, 2, 9), 1111), AllocationId(1));
    assert_eq!(drain(&mut server), vec![]);
    assert_eq!(server.relays_dropped, 1);
}

#[test]
fn port_exhaustion() {
    let mut server = server_v4(EVEN_SEED, 49152, 49153);
    let a = sa(v4(10, 0, 0, 1), 1111);
    let b = sa(v4(10, 0, 0, 2), 2222);
    let c = sa(v4(10, 0, 0, 3), 3333);
    let credentials = good_credentials(&server, 0);
    for (client, t) in [(a, 0x0au8), (b, 0x0b)] {
        server.handle_client_input(
            ClientMessage::Allocate {
                tid: tid(t),
                credentials: Some(credentials.clone()),
                requested_transport: 17,
                lifetime: Some(600),
            },
            client,
            0,
        );
    }
    drain(&mut server);
    assert_eq!(server.allocations.len(), 2);
    server.handle_client_input(
        ClientMessage::Allocate {
            tid: tid(0x0c),
            credentials: Some(credentials),
            requested_transport: 17,
            lifetime: Some(600),
        },
        c,
        1,
    );
    let cmds = drain(&mut server);
    assert_eq!(
        cmds,
        vec![Command::SendMessage {
            payload: Message::ErrorResponse {
                tid: tid(0x0c),
                code: 508,
                realm: None,
                nonce: None,
            },
            recipient: c,
        }]
    );
    assert_eq!(server.allocations.len(), 2);
}

#[test]
fn channel_bind_number_out_of_range() {
    let mut server = server_v4(EVEN_SEED, 49152, 49153);
    let client = sa(v4(198, 51, 100, 5), 50000);
    let credentials = good_credentials(&server, 1000);
    server.handle_client_input(
        ClientMessage::Allocate {
            tid: tid(0x02),
            credentials: Some(credentials.clone()),
            requested_transport: 17,
            lifetime: Some(600),
        },
        client,
        1000,
    );
    drain(&mut server);
    server.handle_client_input(
        ClientMessage::ChannelBind {
            tid: tid(0x04),
            credentials: Some(credentials),
            channel: 0x3FFF,
            peer: sa(v4(192, 0, 2, 9), 1111),
        },
        client,
        1001,
    );
    let cmds = drain(&mut server);
    assert_eq!(
        cmds,
        vec![Command::SendMessage {
            payload: Message::ErrorResponse {
                tid: tid(0x04),
                code: 400,
                realm: None,
                nonce: None,
            },
            recipient: client,
        }]
    );
}

#[test]
fn channel_bind_number_reused_for_other_peer() {
    let mut server = server_v4(EVEN_SEED, 49152, 49153);
    let client = sa(v4(198, 51, 100, 5), 50000);
    let credentials = good_credentials(&server, 1000);
    server.handle_client_input(
        ClientMessage::Allocate {
            tid: tid(0x02),
            credentials: Some(credentials.clone()),
            requested_transport: 17,
            lifetime: Some(600),
        },
        client,
        1000,
    );
    server.handle_client_input(
        ClientMessage::ChannelBind {
            tid: tid(0x05),
            credentials: Some(credentials.clone()),
            channel: 0x4000,
            peer: sa(v4(192, 0, 2, 9), 1111),
        },
        client,
        1001,
    );
    drain(&mut server);
    server.handle_client_input(
        ClientMessage::ChannelBind {
            tid: tid(0x06),
            credentials: Some(credentials),
            channel: 0x4000,
            peer: sa(v4(192, 0, 2, 10), 2222),
        },
        client,
        1002,
    );
    let cmds = drain(&mut server);
    assert_eq!(
        cmds,
        vec![Command::SendMessage {
            payload: Message::ErrorResponse {
                tid: tid(0x06),
                code: 400,
                realm: None,
                nonce: None,
            },
            recipient: client,
        }]
    );
}

#[test]
fn send_without_permission_is_counted_drop() {
    let mut server = server_v4(EVEN_SEED, 49152, 49153);
    let client = sa(v4(198, 51, 100, 5), 50000);
    let credentials = good_credentials(&server, 1000);
    server.handle_client_input(
        ClientMessage::Allocate {
            tid: tid(0x02),
            credentials: Some(credentials),
            requested_transport: 17,
            lifetime: Some(600),
        },
        client,
        1000,
    );
    drain(&mut server);
    server.handle_client_input(
        ClientMessage::SendIndication {
            peer: sa(v4(192, 0, 2, 9), 1111),
            data: b"lost".to_vec(),
        },
        client,
        1001,
    );
    assert_eq!(drain(&mut server), vec![]);
    assert_eq!(server.sends_dropped, 1);
}

#[test]
fn refresh_twice_keeps_second_deadline() {
    let mut server = server_v4(EVEN_SEED, 49152, 49153);
    let client = sa(v4(198, 51, 100, 5), 50000);
    let credentials = good_credentials(&server, 1000);
    server.handle_client_input(
        ClientMessage::Allocate {
            tid: tid(0x02),
            credentials: Some(credentials.clone()),
            requested_transport: 17,
            lifetime: Some(600),
        },
        client,
        1000,
    );
    for (t, now) in [(0x07u8, 1100u64), (0x08, 1105)] {
        server.handle_client_input(
            ClientMessage::Refresh {
                tid: tid(t),
                credentials: Some(credentials.clone()),
                lifetime: Some(200),
            },
            client,
            now,
        );
    }
    assert_eq!(server.allocations[0].expiry, 1105 + 200);
}

#[test]
fn refresh_zero_deletes() {
    let mut server = server_v4(EVEN_SEED, 49152, 49153);
    let client = sa(v4(198, 51, 100, 5), 50000);
    let credentials = good_credentials(&server, 1000);
    server.handle_client_input(
        ClientMessage::Allocate {
            tid: tid(0x02),
            credentials: Some(credentials.clone()),
            requested_transport: 17,
            lifetime: Some(600),
        },
        client,
        1000,
    );
    drain(&mut server);
    server.handle_client_input(
        ClientMessage::Refresh {
            tid: tid(0x09),
            credentials: Some(credentials),
            lifetime: Some(0),
        },
        client,
        1001,
    );
    let cmds = drain(&mut server);
    assert_eq!(
        cmds,
        vec![
            Command::FreeAllocation { id: AllocationId(1), family: AddressFamily::V4 },
            Command::SendMessage {
                payload: Message::RefreshSuccess { tid: tid(0x09), lifetime: 0 },
                recipient: client,
            },
        ]
    );
    assert!(server.allocations.is_empty());
}

#[test]
fn repeated_permission_has_single_entry() {
    let mut server = server_v4(EVEN_SEED, 49152, 49153);
    let client = sa(v4(198, 51, 100, 5), 50000);
    let credentials = good_credentials(&server, 1000);
    server.handle_client_input(
        ClientMessage::Allocate {
            tid: tid(0x02),
            credentials: Some(credentials.clone()),
            requested_transport: 17,
            lifetime: Some(600),
        },
        client,
        1000,
    );
    let peer = sa(v4(192, 0, 2, 9), 0);
    for (t, now) in [(0x0du8, 1001u64), (0x0e, 1050)] {
        server.handle_client_input(
            ClientMessage::CreatePermission {
                tid: tid(t),
                credentials: Some(credentials.clone()),
                peer,
            },
            client,
            now,
        );
    }
    assert_eq!(server.allocations[0].permissions.len(), 1);
    assert_eq!(server.allocations[0].permissions[0].expiry, 1050 + 300);
}

#[test]
fn channel_bind_is_idempotent() {
    let mut server = server_v4(EVEN_SEED, 49152, 49153);
    let client = sa(v4(198, 51, 100, 5), 50000);
    let credentials = good_credentials(&server, 1000);
    server.handle_client_input(
        ClientMessage::Allocate {
            tid: tid(0x02),
            credentials: Some(credentials.clone()),
            requested_transport: 17,
            lifetime: Some(600),
        },
        client,
        1000,
    );
    let peer = sa(v4(192, 0, 2, 9), 1111);
    for t in [0x0fu8, 0x10] {
        server.handle_client_input(
            ClientMessage::ChannelBind {
                tid: tid(t),
                credentials: Some(credentials.clone()),
                channel: 0x4000,
                peer,
            },
            client,
            1001,
        );
    }
    let cmds = drain(&mut server);
    assert!(cmds.contains(&Command::SendMessage {
        payload: Message::ChannelBindSuccess { tid: tid(0x10) },
        recipient: client,
    }));
    assert_eq!(server.allocations[0].channels.len(), 1);
    assert_eq!(server.allocations[0].channels[0].number, 0x4000);
    assert_eq!(server.allocations[0].channels[0].peer, peer);
}

#[test]
fn send_and_channel_data_forward_identical_bytes() {
    let mut server = server_v4(EVEN_SEED, 49152, 49153);
    let client = sa(v4(198, 51, 100, 5), 50000);
    let credentials = good_credentials(&server, 1000);
    server.handle_client_input(
        ClientMessage::Allocate {
            tid: tid(0x02),
            credentials: Some(credentials.clone()),
            requested_transport: 17,
            lifetime: Some(600),
        },
        client,
        1000,
    );
    let peer = sa(v4(192, 0, 2, 9), 1111);
    server.handle_client_input(
        ClientMessage::ChannelBind {
            tid: tid(0x11),
            credentials: Some(credentials),
            channel: 0x4001,
            peer,
        },
        client,
        1001,
    );
    drain(&mut server);
    server.handle_client_input(
        ClientMessage::SendIndication { peer, data: b"payload".to_vec() },
        client,
        1002,
    );
    server.handle_client_input(
        ClientMessage::ChannelData { channel: 0x4001, data: b"payload".to_vec() },
        client,
        1002,
    );
    let cmds = drain(&mut server);
    let forwards: Vec<&Command> = cmds
        .iter()
        .filter(|c| matches!(c, Command::ForwardData { .. }))
        .collect();
    assert_eq!(forwards.len(), 2);
    assert_eq!(forwards[0], forwards[1]);
    match forwards[0] {
        Command::ForwardData { data, receiver, .. } => {
            assert_eq!(data, &b"payload".to_vec());
            assert_eq!(*receiver, peer);
        }
        _ => unreachable!(),
    }
}

#[test]
fn channels_are_backed_by_permissions() {
    let mut server = server_v4(EVEN_SEED, 49152, 49153);
    let client = sa(v4(198, 51, 100, 5), 50000);
    let credentials = good_credentials(&server, 1000);
    server.handle_client_input(
        ClientMessage::Allocate {
            tid: tid(0x02),
            credentials: Some(credentials.clone()),
            requested_transport: 17,
            lifetime: Some(600),
        },
        client,
        1000,
    );
    server.handle_client_input(
        ClientMessage::ChannelBind {
            tid: tid(0x12),
            credentials: Some(credentials),
            channel: 0x4002,
            peer: sa(v4(192, 0, 2, 9), 1111),
        },
        client,
        1001,
    );
    for allocation in &server.allocations {
        for channel in &allocation.channels {
            assert!(allocation
                .permissions
                .iter()
                .any(|p| p.peer_ip == channel.peer.ip && p.expiry >= channel.expiry));
        }
    }
}

#[test]
fn live_allocations_use_distinct_ports() {
    let mut server = server_v4(EVEN_SEED, 49152, 49153);
    let credentials = good_credentials(&server, 0);
    for (client, t) in [(sa(v4(10, 0, 0, 1), 1111), 0x13u8), (sa(v4(10, 0, 0, 2), 2222), 0x14)] {
        server.handle_client_input(
            ClientMessage::Allocate {
                tid: tid(t),
                credentials: Some(credentials.clone()),
                requested_transport: 17,
                lifetime: Some(600),
            },
            client,
            0,
        );
    }
    assert_eq!(server.allocations.len(), 2);
    assert_ne!(server.allocations[0].relay_port, server.allocations[1].relay_port);
}

#[test]
fn next_deadline_tracks_earliest_expiry() {
    let mut server = server_v4(EVEN_SEED, 49152, 49153);
    let client = sa(v4(198, 51, 100, 5), 50000);
    let credentials = good_credentials(&server, 1000);
    assert_eq!(server.next_deadline, None);
    server.handle_client_input(
        ClientMessage::Allocate {
            tid: tid(0x02),
            credentials: Some(credentials.clone()),
            requested_transport: 17,
            lifetime: Some(600),
        },
        client,
        1000,
    );
    assert_eq!(server.next_deadline, Some(1600));
    server.handle_client_input(
        ClientMessage::CreatePermission {
            tid: tid(0x15),
            credentials: Some(credentials),
            peer: sa(v4(192, 0, 2, 9), 0),
        },
        client,
        1010,
    );
    assert_eq!(server.next_deadline, Some(1310));
}

#[test]
fn allocation_freed_exactly_once() {
    let mut server = server_v4(EVEN_SEED, 49152, 49153);
    let client = sa(v4(198, 51, 100, 5), 50000);
    let credentials = good_credentials(&server, 1000);
    server.handle_client_input(
        ClientMessage::Allocate {
            tid: tid(0x02),
            credentials: Some(credentials),
            requested_transport: 17,
            lifetime: Some(10),
        },
        client,
        1000,
    );
    let mut all = drain(&mut server);
    server.handle_deadline_reached(1011);
    // a second, spurious fire changes nothing
    server.handle_deadline_reached(1011);
    all.extend(drain(&mut server));
    let creates = all
        .iter()
        .filter(|c| matches!(c, Command::CreateAllocation { .. }))
        .count();
    let frees = all
        .iter()
        .filter(|c| matches!(c, Command::FreeAllocation { .. }))
        .count();
    assert_eq!(creates, 1);
    assert_eq!(frees, 1);
}

#[test]
fn one_success_response_per_transaction() {
    let mut server = server_v4(EVEN_SEED, 49152, 49153);
    let client = sa(v4(198, 51, 100, 5), 50000);
    let credentials = good_credentials(&server, 1000);
    server.handle_client_input(
        ClientMessage::Allocate {
            tid: tid(0x16),
            credentials: Some(credentials),
            requested_transport: 17,
            lifetime: Some(600),
        },
        client,
        1000,
    );
    let cmds = drain(&mut server);
    let answers = cmds
        .iter()
        .filter(|c| match c {
            Command::SendMessage { payload, .. } => match payload {
                Message::AllocateSuccess { tid: t, .. } => *t == tid(0x16),
                Message::ErrorResponse { tid: t, .. } => *t == tid(0x16),
                _ => false,
            },
            _ => false,
        })
        .count();
    assert_eq!(answers, 1);
}

#[test]
fn unsupported_transport_is_refused() {
    let mut server = server_v4(EVEN_SEED, 49152, 49153);
    let client = sa(v4(198, 51, 100, 5), 50000);
    let credentials = good_credentials(&server, 1000);
    server.handle_client_input(
        ClientMessage::Allocate {
            tid: tid(0x17),
            credentials: Some(credentials),
            requested_transport: 6,
            lifetime: Some(600),
        },
        client,
        1000,
    );
    let cmds = drain(&mut server);
    assert_eq!(
        cmds,
        vec![Command::SendMessage {
            payload: Message::ErrorResponse {
                tid: tid(0x17),
                code: 442,
                realm: None,
                nonce: None,
            },
            recipient: client,
        }]
    );
}

#[test]
fn refresh_without_allocation_is_mismatch() {
    let mut server = server_v4(EVEN_SEED, 49152, 49153);
    let client = sa(v4(198, 51, 100, 5), 50000);
    let credentials = good_credentials(&server, 1000);
    server.handle_client_input(
        ClientMessage::Refresh {
            tid: tid(0x18),
            credentials: Some(credentials),
            lifetime: Some(600),
        },
        client,
        1000,
    );
    let cmds = drain(&mut server);
    assert_eq!(
        cmds,
        vec![Command::SendMessage {
            payload: Message::ErrorResponse {
                tid: tid(0x18),
                code: 437,
                realm: None,
                nonce: None,
            },
            recipient: client,
        }]
    );
}

#[test]
fn permission_for_wrong_family_is_refused() {
    let mut server = server_v4(EVEN_SEED, 49152, 49153);
    let client = sa(v4(198, 51, 100, 5), 50000);
    let credentials = good_credentials(&server, 1000);
    server.handle_client_input(
        ClientMessage::Allocate {
            tid: tid(0x02),
            credentials: Some(credentials.clone()),
            requested_transport: 17,
            lifetime: Some(600),
        },
        client,
        1000,
    );
    drain(&mut server);
    server.handle_client_input(
        ClientMessage::CreatePermission {
            tid: tid(0x19),
            credentials: Some(credentials),
            peer: SocketAddr { ip: IpAddr::V6(1), port: 0 },
        },
        client,
        1001,
    );
    let cmds = drain(&mut server);
    assert_eq!(
        cmds,
        vec![Command::SendMessage {
            payload: Message::ErrorResponse {
                tid: tid(0x19),
                code: 443,
                realm: None,
                nonce: None,
            },
            recipient: client,
        }]
    );
}
