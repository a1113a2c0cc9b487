//! ICMP echo packets, modeled by the header fields the relay's tooling
//! reads and writes: addresses, sequence number, identifier and kind.
//! Serializing a packet into wire bytes (checksums included) is the
//! business of the packet library at the binary's edge; every rule about
//! which packet answers which stands here, over plain values.

use vstd::prelude::*;
use crate::addr::IpAddr;

verus! {

/// Whether an echo packet asks or answers.
#[derive(Clone, Copy, PartialEq, Eq, Structural, Debug)]
pub enum IcmpKind {
    Request,
    Response,
}

/// An ICMP echo packet, reduced to the fields the logic depends on.
#[derive(Clone, Copy, PartialEq, Eq, Structural, Debug)]
pub struct IcmpEchoPacket {
    pub source: IpAddr,
    pub destination: IpAddr,
    pub seq: u16,
    pub identifier: u16,
    pub kind: IcmpKind,
}

impl IcmpEchoPacket {
    /// Source and destination belong to one family: an ICMP packet never
    /// crosses between IPv4 and IPv6.
    pub open spec fn wf(self) -> bool {
        self.source.spec_family() == self.destination.spec_family()
    }
}

/// Build an echo packet of the given kind between two addresses of the
/// same family.
fn icmp_packet(src: IpAddr, dst: IpAddr, seq: u16, identifier: u16, kind: IcmpKind) -> (r:
    IcmpEchoPacket)
    requires
        src.spec_family() == dst.spec_family(),
    ensures
        r == (IcmpEchoPacket { source: src, destination: dst, seq, identifier, kind }),
        r.wf(),
{
    IcmpEchoPacket { source: src, destination: dst, seq, identifier, kind }
}

/// An echo request from `src` to `dst`.
pub fn icmp_request_packet(src: IpAddr, dst: IpAddr, seq: u16, identifier: u16) -> (r:
    IcmpEchoPacket)
    requires
        src.spec_family() == dst.spec_family(),
    ensures
        r == (IcmpEchoPacket {
            source: src,
            destination: dst,
            seq,
            identifier,
            kind: IcmpKind::Request,
        }),
        r.wf(),
{
    icmp_packet(src, dst, seq, identifier, IcmpKind::Request)
}

/// An echo reply from `src` to `dst`.
pub fn icmp_reply_packet(src: IpAddr, dst: IpAddr, seq: u16, identifier: u16) -> (r:
    IcmpEchoPacket)
    requires
        src.spec_family() == dst.spec_family(),
    ensures
        r == (IcmpEchoPacket {
            source: src,
            destination: dst,
            seq,
            identifier,
            kind: IcmpKind::Response,
        }),
        r.wf(),
{
    icmp_packet(src, dst, seq, identifier, IcmpKind::Response)
}

/// The reply that answers an echo request: addresses swapped, sequence
/// number and identifier preserved.
pub fn icmp_response_packet(packet: IcmpEchoPacket) -> (r: IcmpEchoPacket)
    requires
        packet.wf(),
        packet.kind == IcmpKind::Request,
    ensures
        r == (IcmpEchoPacket {
            source: packet.destination,
            destination: packet.source,
            seq: packet.seq,
            identifier: packet.identifier,
            kind: IcmpKind::Response,
        }),
        r.wf(),
{
    icmp_packet(
        packet.destination,
        packet.source,
        packet.seq,
        packet.identifier,
        IcmpKind::Response,
    )
}

} // verus!
