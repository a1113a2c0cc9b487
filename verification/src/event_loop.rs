//! The pure decisions of the event loop.
//!
//! The loop itself — sockets, timers, the portal channel — lives in the
//! binary; what stands here is everything it has to decide: which ready
//! source to serve next (the strict priority order), how to treat a portal
//! event during operation, and when the wait for the portal's `init`
//! message ends.

use vstd::prelude::*;

verus! {

/// One of the sources the event loop multiplexes, in priority order.
#[derive(Clone, Copy, PartialEq, Eq, Structural, Debug)]
pub enum EventSource {
    /// A pending command of the server.
    Command,
    /// The deadline timer has fired.
    Timer,
    /// A datagram a peer sent into an allocation.
    RelayData,
    /// A datagram a client sent to the relay port.
    ClientData,
    /// An event on the portal channel.
    Portal,
}

/// An event observed on the portal channel, reduced to what the loop
/// dispatches on.
#[derive(Clone, Copy, PartialEq, Eq, Structural, Debug)]
pub enum PortalEvent {
    /// The room was joined.
    JoinedRoom,
    /// The portal sent its `init` message.
    InboundInit,
    /// A request of ours succeeded.
    SuccessResponse,
    /// A request of ours failed.
    ErrorResponse,
    /// A heartbeat went out.
    HeartbeatSent,
    /// The portal sent `init` as a request, which it never may.
    InboundInitRequest,
    /// A frame failed to deserialize.
    DeserializeError,
    /// The transport failed.
    TransportError,
}

/// What the loop does with a portal event.
#[derive(Clone, Copy, PartialEq, Eq, Structural, Debug)]
pub enum PortalDecision {
    /// Log if need be and poll again.
    Continue,
    /// Tear the loop down with an error.
    Fatal,
}

/// What the startup wait does with a portal event before `init` has
/// arrived.
#[derive(Clone, Copy, PartialEq, Eq, Structural, Debug)]
pub enum StartupDecision {
    /// The relay may start serving traffic.
    Ready,
    /// Keep waiting.
    Wait,
    /// Give up: the portal connection failed.
    Fatal,
}

/// Pick the highest-priority ready source: pending commands first, then
/// the timer, then relayed peer data, then client data, then the portal.
pub fn next_source(has_command: bool, timer_fired: bool, has_relay: bool, has_client: bool,
    has_portal: bool) -> (r: Option<EventSource>)
    ensures
        r == if has_command {
            Some(EventSource::Command)
        } else if timer_fired {
            Some(EventSource::Timer)
        } else if has_relay {
            Some(EventSource::RelayData)
        } else if has_client {
            Some(EventSource::ClientData)
        } else if has_portal {
            Some(EventSource::Portal)
        } else {
            None::<EventSource>
        },
{
    if has_command {
        Some(EventSource::Command)
    } else if timer_fired {
        Some(EventSource::Timer)
    } else if has_relay {
        Some(EventSource::RelayData)
    } else if has_client {
        Some(EventSource::ClientData)
    } else if has_portal {
        Some(EventSource::Portal)
    } else {
        None
    }
}

/// Dispatch a portal event during operation: only a transport failure or
/// an `init` arriving as a request is fatal; everything else — a stray
/// `init`, a frame that fails to deserialize, responses, heartbeats — is
/// logged and skipped.
pub fn portal_event_decision(event: PortalEvent) -> (r: PortalDecision)
    ensures
        r == PortalDecision::Fatal <==> (event == PortalEvent::TransportError || event
            == PortalEvent::InboundInitRequest),
{
    match event {
        PortalEvent::TransportError => PortalDecision::Fatal,
        PortalEvent::InboundInitRequest => PortalDecision::Fatal,
        _ => PortalDecision::Continue,
    }
}

/// Dispatch a portal event during startup, while the relay waits for
/// `init` before serving traffic: `init` ends the wait, any channel
/// error during it is fatal, everything else prolongs it.
pub fn portal_startup_decision(event: PortalEvent) -> (r: StartupDecision)
    ensures
        r == StartupDecision::Ready <==> event == PortalEvent::InboundInit,
        r == StartupDecision::Fatal <==> (event == PortalEvent::TransportError || event
            == PortalEvent::DeserializeError),
{
    match event {
        PortalEvent::InboundInit => StartupDecision::Ready,
        PortalEvent::TransportError => StartupDecision::Fatal,
        PortalEvent::DeserializeError => StartupDecision::Fatal,
        _ => StartupDecision::Wait,
    }
}

} // verus!
