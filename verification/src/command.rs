//! Commands: the ordered output stream of the server state machine.
//!
//! The event loop executes them in the FIFO order in which
//! [`crate::server::Server::next_command`] hands them out.

use vstd::prelude::*;
use crate::addr::{AddressFamily, SocketAddr};
use crate::allocation::AllocationId;
use crate::message::Message;

verus! {

/// One effect the event loop must perform for the server.
#[derive(Clone, PartialEq, Debug)]
pub enum Command {
    /// Serialize `payload` and send it to `recipient` on the client socket.
    SendMessage { payload: Message, recipient: SocketAddr },
    /// Spawn an allocation worker bound to `port` for `family`.
    CreateAllocation { id: AllocationId, family: AddressFamily, port: u16 },
    /// Cancel the allocation worker and release its port.
    FreeAllocation { id: AllocationId, family: AddressFamily },
    /// Write `data` out of allocation `id`'s relay socket towards `receiver`.
    ForwardData { id: AllocationId, data: Vec<u8>, receiver: SocketAddr },
    /// Rearm the single deadline timer to fire at `deadline`.
    Wake { deadline: u64 },
}

impl Command {
    /// This command creates the allocation `(id, family)`.
    pub open spec fn is_create_for(self, id: AllocationId, family: AddressFamily) -> bool {
        match self {
            Command::CreateAllocation { id: i, family: f, .. } => i == id && f == family,
            _ => false,
        }
    }

    /// This command frees the allocation `(id, family)`.
    pub open spec fn is_free_for(self, id: AllocationId, family: AddressFamily) -> bool {
        match self {
            Command::FreeAllocation { id: i, family: f } => i == id && f == family,
            _ => false,
        }
    }

    /// This command creates or frees some allocation.
    pub open spec fn is_lifecycle(self) -> bool {
        match self {
            Command::CreateAllocation { .. } => true,
            Command::FreeAllocation { .. } => true,
            _ => false,
        }
    }
}

} // verus!
