//! Typed STUN/TURN messages.
//!
//! Byte-level encoding and decoding is the codec's business and happens
//! outside this crate; the state machine consumes and produces the parsed
//! form defined here.  The spec only ever speaks of the fields below.

use vstd::prelude::*;
use crate::addr::SocketAddr;

verus! {

/// The 96-bit STUN transaction id, held as an integer.
#[derive(Clone, Copy, PartialEq, Eq, Structural, Debug)]
pub struct TransactionId(pub u128);

/// The credential attributes of an authenticated request.
///
/// `username` has the shape `<expiry_unix>:<salt>`; `mac` is the value of
/// the `MESSAGE-INTEGRITY` attribute and `covered` the request bytes it
/// was computed over, both handed through unchanged by the codec.
#[derive(Clone, PartialEq, Debug)]
pub struct Credentials {
    pub username: Vec<u8>,
    pub realm: Vec<u8>,
    pub nonce: u64,
    pub mac: Vec<u8>,
    pub covered: Vec<u8>,
}

/// A parsed message from a client.
#[derive(Clone, PartialEq, Debug)]
pub enum ClientMessage {
    Binding {
        tid: TransactionId,
    },
    Allocate {
        tid: TransactionId,
        credentials: Option<Credentials>,
        /// The `REQUESTED-TRANSPORT` protocol number; only UDP (17) is served.
        requested_transport: u8,
        lifetime: Option<u32>,
    },
    Refresh {
        tid: TransactionId,
        credentials: Option<Credentials>,
        lifetime: Option<u32>,
    },
    CreatePermission {
        tid: TransactionId,
        credentials: Option<Credentials>,
        peer: SocketAddr,
    },
    ChannelBind {
        tid: TransactionId,
        credentials: Option<Credentials>,
        channel: u16,
        peer: SocketAddr,
    },
    SendIndication {
        peer: SocketAddr,
        data: Vec<u8>,
    },
    ChannelData {
        channel: u16,
        data: Vec<u8>,
    },
}

/// A message from the server to a client.
#[derive(Clone, PartialEq, Debug)]
pub enum Message {
    BindingSuccess {
        tid: TransactionId,
        /// The client's reflexive address, returned as `XOR-MAPPED-ADDRESS`.
        mapped: SocketAddr,
    },
    AllocateSuccess {
        tid: TransactionId,
        /// The `XOR-RELAYED-ADDRESS` per family the allocation serves.
        relayed_v4: Option<SocketAddr>,
        relayed_v6: Option<SocketAddr>,
        lifetime: u32,
    },
    RefreshSuccess {
        tid: TransactionId,
        lifetime: u32,
    },
    CreatePermissionSuccess {
        tid: TransactionId,
    },
    ChannelBindSuccess {
        tid: TransactionId,
    },
    /// A peer datagram wrapped for a client without a channel binding.
    DataIndication {
        peer: SocketAddr,
        data: Vec<u8>,
    },
    /// A peer datagram sent over a bound channel.
    ChannelDataMessage {
        channel: u16,
        data: Vec<u8>,
    },
    ErrorResponse {
        tid: TransactionId,
        code: u16,
        realm: Option<Vec<u8>>,
        nonce: Option<u64>,
    },
}

impl Message {
    /// Whether this message answers the transaction `tid`.
    pub open spec fn answers(self, tid: TransactionId) -> bool {
        match self {
            Message::BindingSuccess { tid: t, .. } => t == tid,
            Message::AllocateSuccess { tid: t, .. } => t == tid,
            Message::RefreshSuccess { tid: t, .. } => t == tid,
            Message::CreatePermissionSuccess { tid: t } => t == tid,
            Message::ChannelBindSuccess { tid: t } => t == tid,
            Message::ErrorResponse { tid: t, .. } => t == tid,
            Message::DataIndication { .. } => false,
            Message::ChannelDataMessage { .. } => false,
        }
    }

    /// Whether this message is a success response.
    pub open spec fn is_success(self) -> bool {
        match self {
            Message::BindingSuccess { .. } => true,
            Message::AllocateSuccess { .. } => true,
            Message::RefreshSuccess { .. } => true,
            Message::CreatePermissionSuccess { .. } => true,
            Message::ChannelBindSuccess { .. } => true,
            _ => false,
        }
    }
}

/// `ERROR-CODE` 400: the request was malformed or violated a binding rule.
pub const BAD_REQUEST: u16 = 400;
/// `ERROR-CODE` 401: the request carried no valid credentials.
pub const UNAUTHORIZED: u16 = 401;
/// `ERROR-CODE` 403: the request was authenticated but is not allowed.
pub const FORBIDDEN: u16 = 403;
/// `ERROR-CODE` 437: no allocation exists where one is required, or one
/// exists where none may.
pub const ALLOCATION_MISMATCH: u16 = 437;
/// `ERROR-CODE` 438: the request's nonce is stale.
pub const STALE_NONCE: u16 = 438;
/// `ERROR-CODE` 441: the request's credentials are wrong.
pub const WRONG_CREDENTIALS: u16 = 441;
/// `ERROR-CODE` 442: a transport other than UDP was requested.
pub const UNSUPPORTED_TRANSPORT_PROTOCOL: u16 = 442;
/// `ERROR-CODE` 443: the peer's family does not match the allocation.
pub const PEER_ADDRESS_FAMILY_MISMATCH: u16 = 443;
/// `ERROR-CODE` 486: the client holds as many allocations as it may.
pub const ALLOCATION_QUOTA_REACHED: u16 = 486;
/// `ERROR-CODE` 508: no relay port is free.
pub const INSUFFICIENT_CAPACITY: u16 = 508;

} // verus!
