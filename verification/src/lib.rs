//! Core of a TURN relay server: the allocation state machine, its
//! authenticator, and the pure decision logic of the surrounding event loop.
//!
//! The protocol layer is pure: it consumes parsed client messages together
//! with the current time and emits an ordered stream of commands.  All
//! I/O — sockets, timers, the portal channel — lives outside this crate
//! and only executes what the state machine decided.

pub mod addr;
pub mod message;
pub mod seq_util;
pub mod allocation;
pub mod auth;
pub mod codec;
pub mod command;
pub mod event_loop;
pub mod icmp;
pub mod crypto;
pub mod laws;
pub mod rng;
pub mod server;

use vstd::prelude::*;

verus! {

} // verus!
