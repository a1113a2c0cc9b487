//! Byte-level codec for the one message the relay answers without
//! authentication: the Binding probe.  The contracts pin every byte.
//!
//! The full TURN codec — attribute parsing, `MESSAGE-INTEGRITY` framing —
//! is an external collaborator of the relay: the binary feeds the server
//! parsed [`crate::message::ClientMessage`] values and serializes its
//! responses.  The Binding handshake is small enough to state exactly,
//! so it lives here, verified.

use vstd::prelude::*;
use crate::addr::{IpAddr, SocketAddr};
use crate::message::TransactionId;

verus! {

/// The fixed STUN magic cookie, byte by byte.
pub const COOKIE_0: u8 = 0x21;
pub const COOKIE_1: u8 = 0x12;
pub const COOKIE_2: u8 = 0xA4;
pub const COOKIE_3: u8 = 0x42;

/// The datagram is a syntactically well-formed STUN Binding request: the
/// Binding method with the request class, a length that matches, the
/// magic cookie.
pub open spec fn is_binding_request(d: Seq<u8>) -> bool {
    &&& d.len() >= 20
    &&& d[0] == 0u8
    &&& d[1] == 1u8
    &&& (d[2] as int) * 256 + (d[3] as int) == d.len() - 20
    &&& d[4] == COOKIE_0
    &&& d[5] == COOKIE_1
    &&& d[6] == COOKIE_2
    &&& d[7] == COOKIE_3
}

/// The 96-bit transaction id carried in bytes 8 to 19, big-endian.
pub open spec fn tid_of(d: Seq<u8>) -> u128 {
    ((d[8] as u128) << 88) | ((d[9] as u128) << 80) | ((d[10] as u128) << 72) | ((d[11]
        as u128) << 64) | ((d[12] as u128) << 56) | ((d[13] as u128) << 48) | ((d[14]
        as u128) << 40) | ((d[15] as u128) << 32) | ((d[16] as u128) << 24) | ((d[17]
        as u128) << 16) | ((d[18] as u128) << 8) | (d[19] as u128)
}

/// Decode a datagram as a Binding request, exactly when it is one.
pub fn decode_binding_request(data: &Vec<u8>) -> (r: Option<TransactionId>)
    ensures
        r is Some <==> is_binding_request(data@),
        r matches Some(t) ==> t.0 == tid_of(data@),
{
    if data.len() < 20 {
        return None;
    }
    if data[0] != 0 || data[1] != 1 {
        return None;
    }
    let announced: usize = (data[2] as usize) * 256 + (data[3] as usize);
    if announced != data.len() - 20 {
        return None;
    }
    if data[4] != COOKIE_0 || data[5] != COOKIE_1 || data[6] != COOKIE_2 || data[7]
        != COOKIE_3 {
        return None;
    }
    let t: u128 = ((data[8] as u128) << 88) | ((data[9] as u128) << 80) | ((data[10]
        as u128) << 72) | ((data[11] as u128) << 64) | ((data[12] as u128) << 56) | ((data[13]
        as u128) << 48) | ((data[14] as u128) << 40) | ((data[15] as u128) << 32) | ((data[16]
        as u128) << 24) | ((data[17] as u128) << 16) | ((data[18] as u128) << 8) | (data[19]
        as u128)
    ;
    Some(TransactionId(t))
}

/// Byte `j` (big-endian, from 0) of the 12-byte transaction id.
pub open spec fn tid_byte(t: u128, j: int) -> u8 {
    ((t >> ((11 - j) * 8)) & 0xFF) as u8
}

/// The success response to a Binding request: a 32-byte (IPv4) or
/// 44-byte (IPv6) message whose single attribute is `XOR-MAPPED-ADDRESS`
/// for `mapped`.
pub open spec fn binding_success_bytes(t: u128, mapped: SocketAddr) -> Seq<u8> {
    let header = seq![
        1u8,
        1u8,
        0u8,
        (match mapped.ip {
            IpAddr::V4(_) => 12u8,
            IpAddr::V6(_) => 24u8,
        }),
        COOKIE_0,
        COOKIE_1,
        COOKIE_2,
        COOKIE_3,
        tid_byte(t, 0),
        tid_byte(t, 1),
        tid_byte(t, 2),
        tid_byte(t, 3),
        tid_byte(t, 4),
        tid_byte(t, 5),
        tid_byte(t, 6),
        tid_byte(t, 7),
        tid_byte(t, 8),
        tid_byte(t, 9),
        tid_byte(t, 10),
        tid_byte(t, 11),
    ];
    let xport = mapped.port ^ 0x2112;
    match mapped.ip {
        IpAddr::V4(ip) => {
            let xip = ip ^ 0x2112A442;
            header + seq![
                0u8,
                0x20u8,
                0u8,
                8u8,
                0u8,
                1u8,
                ((xport >> 8) & 0xFF) as u8,
                (xport & 0xFF) as u8,
                ((xip >> 24) & 0xFF) as u8,
                ((xip >> 16) & 0xFF) as u8,
                ((xip >> 8) & 0xFF) as u8,
                (xip & 0xFF) as u8,
            ]
        },
        IpAddr::V6(ip) => {
            // the 128-bit key is the cookie followed by the transaction id
            let key = (0x2112A442u128 << 96) | (t & 0xFFFFFFFFFFFFFFFFFFFFFFFF);
            let xip = ip ^ key;
            header + seq![
                0u8,
                0x20u8,
                0u8,
                20u8,
                0u8,
                2u8,
                ((xport >> 8) & 0xFF) as u8,
                (xport & 0xFF) as u8,
                ((xip >> 120) & 0xFF) as u8,
                ((xip >> 112) & 0xFF) as u8,
                ((xip >> 104) & 0xFF) as u8,
                ((xip >> 96) & 0xFF) as u8,
                ((xip >> 88) & 0xFF) as u8,
                ((xip >> 80) & 0xFF) as u8,
                ((xip >> 72) & 0xFF) as u8,
                ((xip >> 64) & 0xFF) as u8,
                ((xip >> 56) & 0xFF) as u8,
                ((xip >> 48) & 0xFF) as u8,
                ((xip >> 40) & 0xFF) as u8,
                ((xip >> 32) & 0xFF) as u8,
                ((xip >> 24) & 0xFF) as u8,
                ((xip >> 16) & 0xFF) as u8,
                ((xip >> 8) & 0xFF) as u8,
                (xip & 0xFF) as u8,
            ]
        },
    }
}

/// Serialize the Binding success response for `mapped`, byte-exact.
pub fn encode_binding_success(tid: TransactionId, mapped: SocketAddr) -> (r: Vec<u8>)
    ensures
        r@ == binding_success_bytes(tid.0, mapped),
{
    let t = tid.0;
    let mut v: Vec<u8> = Vec::new();
    v.push(1);
    v.push(1);
    v.push(0);
    match mapped.ip {
        IpAddr::V4(_) => v.push(12),
        IpAddr::V6(_) => v.push(24),
    }
    v.push(COOKIE_0);
    v.push(COOKIE_1);
    v.push(COOKIE_2);
    v.push(COOKIE_3);
    v.push(((t >> 88) & 0xFF) as u8);
    v.push(((t >> 80) & 0xFF) as u8);
    v.push(((t >> 72) & 0xFF) as u8);
    v.push(((t >> 64) & 0xFF) as u8);
    v.push(((t >> 56) & 0xFF) as u8);
    v.push(((t >> 48) & 0xFF) as u8);
    v.push(((t >> 40) & 0xFF) as u8);
    v.push(((t >> 32) & 0xFF) as u8);
    v.push(((t >> 24) & 0xFF) as u8);
    v.push(((t >> 16) & 0xFF) as u8);
    v.push(((t >> 8) & 0xFF) as u8);
    v.push(((t >> 0) & 0xFF) as u8);
    let xport = mapped.port ^ 0x2112;
    v.push(0);
    v.push(0x20);
    v.push(0);
    match mapped.ip {
        IpAddr::V4(ip) => {
            v.push(8);
            v.push(0);
            v.push(1);
            v.push(((xport >> 8) & 0xFF) as u8);
            v.push((xport & 0xFF) as u8);
            let xip = ip ^ 0x2112A442;
            v.push(((xip >> 24) & 0xFF) as u8);
            v.push(((xip >> 16) & 0xFF) as u8);
            v.push(((xip >> 8) & 0xFF) as u8);
            v.push((xip & 0xFF) as u8);
        },
        IpAddr::V6(ip) => {
            v.push(20);
            v.push(0);
            v.push(2);
            v.push(((xport >> 8) & 0xFF) as u8);
            v.push((xport & 0xFF) as u8);
            let key: u128 = (0x2112A442u128 << 96) | (t & 0xFFFFFFFFFFFFFFFFFFFFFFFF);
            let xip = ip ^ key;
            v.push(((xip >> 120) & 0xFF) as u8);
            v.push(((xip >> 112) & 0xFF) as u8);
            v.push(((xip >> 104) & 0xFF) as u8);
            v.push(((xip >> 96) & 0xFF) as u8);
            v.push(((xip >> 88) & 0xFF) as u8);
            v.push(((xip >> 80) & 0xFF) as u8);
            v.push(((xip >> 72) & 0xFF) as u8);
            v.push(((xip >> 64) & 0xFF) as u8);
            v.push(((xip >> 56) & 0xFF) as u8);
            v.push(((xip >> 48) & 0xFF) as u8);
            v.push(((xip >> 40) & 0xFF) as u8);
            v.push(((xip >> 32) & 0xFF) as u8);
            v.push(((xip >> 24) & 0xFF) as u8);
            v.push(((xip >> 16) & 0xFF) as u8);
            v.push(((xip >> 8) & 0xFF) as u8);
            v.push((xip & 0xFF) as u8);
        },
    }
    proof {
        assert(v@ =~= binding_success_bytes(t, mapped));
    }
    v
}

} // verus!
