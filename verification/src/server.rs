//! The server state machine: the single source of truth for protocol
//! behavior.
//!
//! Ingress is a parsed client message, a relayed peer datagram, or the
//! deadline timer; egress is the FIFO stream of [`Command`]s drained by
//! [`Server::next_command`].  The machine is pure: it performs no I/O and
//! never blocks.
//!
//! Beside the exec state the server carries the ghost history `emitted` of
//! every command it ever enqueued; the well-formedness predicate ties the
//! allocation table to that history, which is what makes the lifecycle
//! law — one `CreateAllocation`, at most one later `FreeAllocation`, per
//! allocation — provable.

use vstd::prelude::*;
use crate::addr::{AddressFamily, IpAddr, IpStack, SocketAddr};
use crate::allocation::{Allocation, AllocationId, ChannelBinding, Permission, granted_rel,
    bound_rel, perms_granted_rel,
    channels_min_expiry, permissions_min_expiry, min64, max64, FIRST_CHANNEL_NUMBER,
    LAST_CHANNEL_NUMBER, PERMISSION_LIFETIME, CHANNEL_LIFETIME};
use crate::auth::{authenticate, credentials_valid};
use crate::command::Command;
use crate::message::{ClientMessage, Credentials, Message, TransactionId, BAD_REQUEST,
    UNAUTHORIZED, ALLOCATION_MISMATCH, UNSUPPORTED_TRANSPORT_PROTOCOL,
    PEER_ADDRESS_FAMILY_MISMATCH, INSUFFICIENT_CAPACITY};
use crate::rng::{next_u32, next_u64};
use crate::seq_util::{kept, count_matching, lemma_kept_push, lemma_kept_membership,
    lemma_kept_distinct_by, lemma_kept_source};

verus! {

/// Lifetime granted when an ALLOCATE or REFRESH names none, in seconds.
pub const DEFAULT_ALLOCATION_LIFETIME: u64 = 600;
/// Hard cap on any granted allocation lifetime, in seconds.
pub const MAX_ALLOCATION_LIFETIME: u64 = 3600;
/// The UDP protocol number, the only `REQUESTED-TRANSPORT` served.
pub const UDP_TRANSPORT: u8 = 17;

/// The latest `now` the machine accepts, so that no deadline arithmetic
/// can leave `u64`.
pub open spec fn time_ok(now: u64) -> bool {
    now < u64::MAX - MAX_ALLOCATION_LIFETIME
}

/// Shorthand for a message sent to a client.
pub open spec fn send_to(m: Message, to: SocketAddr) -> Command {
    Command::SendMessage { payload: m, recipient: to }
}

/// The least deadline among a table of allocations, `u64::MAX` if the
/// table is empty.
pub open spec fn allocations_min(s: Seq<Allocation>) -> u64
    decreases s.len(),
{
    if s.len() == 0 {
        u64::MAX
    } else {
        min64(allocations_min(s.drop_last()), s.last().min_expiry())
    }
}

pub proof fn lemma_allocations_min_push(s: Seq<Allocation>, a: Allocation)
    ensures
        allocations_min(s.push(a)) == min64(allocations_min(s), a.min_expiry()),
{
    assert(s.push(a).drop_last() =~= s);
}

/// The minimum over allocations bounds each allocation's own minimum.
pub proof fn lemma_allocations_min_le(s: Seq<Allocation>, i: int)
    requires
        0 <= i < s.len(),
    ensures
        allocations_min(s) <= s[i].min_expiry(),
    decreases s.len(),
{
    if i < s.len() - 1 {
        assert(s.drop_last()[i] == s[i]);
        lemma_allocations_min_le(s.drop_last(), i);
    }
}

/// A non-trivial table minimum is attained by some allocation.
pub proof fn lemma_allocations_min_witness(s: Seq<Allocation>)
    requires
        allocations_min(s) < u64::MAX,
    ensures
        exists|i: int| 0 <= i < s.len() && s[i].min_expiry() == allocations_min(s),
    decreases s.len(),
{
    if s.len() > 0 {
        if allocations_min(s) == s.last().min_expiry() {
            assert(s[s.len() - 1].min_expiry() == allocations_min(s));
        } else {
            lemma_allocations_min_witness(s.drop_last());
            let i = choose|i: int|
                0 <= i < s.drop_last().len() && s.drop_last()[i].min_expiry()
                    == allocations_min(s.drop_last());
            assert(s[i].min_expiry() == allocations_min(s));
        }
    }
}

/// The deadline the server must announce for a table: the earliest expiry
/// of any expirable object, `None` when none exists.
pub open spec fn spec_deadline(s: Seq<Allocation>) -> Option<u64> {
    if s.len() == 0 {
        None
    } else {
        Some(allocations_min(s))
    }
}

/// An allocation for `(id, family)` stands in the table.
pub open spec fn has_allocation_entry(
    s: Seq<Allocation>,
    id: AllocationId,
    family: AddressFamily,
) -> bool {
    exists|i: int| 0 <= i < s.len() && (#[trigger] s[i]).id == id && s[i].family == family
}

/// Some allocation in the table belongs to the client at `addr`.
pub open spec fn has_client_allocation(s: Seq<Allocation>, addr: SocketAddr) -> bool {
    exists|i: int| 0 <= i < s.len() && (#[trigger] s[i]).client_addr == addr
}

/// The port is leased by some allocation of the same family.
pub open spec fn port_in_use(s: Seq<Allocation>, port: u16, family: AddressFamily) -> bool {
    exists|i: int|
        0 <= i < s.len() && (#[trigger] s[i]).relay_port == port && s[i].family == family
}

/// Some allocation in the table belongs to `addr` and serves `family`.
pub open spec fn spec_has_client_family(
    s: Seq<Allocation>,
    addr: SocketAddr,
    family: AddressFamily,
) -> bool {
    exists|i: int|
        0 <= i < s.len() && (#[trigger] s[i]).client_addr == addr && s[i].family == family
}

/// The `FreeAllocation` command that releases `a`.
pub open spec fn free_command(a: Allocation) -> Command {
    Command::FreeAllocation { id: a.id, family: a.family }
}

/// A saturating increment, for the metric counters.
pub open spec fn inc64(x: u64) -> u64 {
    if x < u64::MAX {
        (x + 1) as u64
    } else {
        x
    }
}

/// How many `CreateAllocation` commands for `(id, family)` a history holds.
pub open spec fn creates_for(
    s: Seq<Command>,
    id: AllocationId,
    family: AddressFamily,
) -> nat {
    count_matching(s, |c: Command| c.is_create_for(id, family))
}

/// How many `FreeAllocation` commands for `(id, family)` a history holds.
pub open spec fn frees_for(s: Seq<Command>, id: AllocationId, family: AddressFamily) -> nat {
    count_matching(s, |c: Command| c.is_free_for(id, family))
}

/// The lifecycle ledger: every allocation ever announced with
/// `CreateAllocation` is freed at most once, is freed only after being
/// created, and stands in the table exactly while created-but-not-freed.
pub open spec fn history_ok(
    emitted: Seq<Command>,
    allocs: Seq<Allocation>,
    next_id: u64,
) -> bool {
    forall|id: AllocationId, family: AddressFamily|
        {
            &&& #[trigger] creates_for(emitted, id, family) <= 1
            &&& frees_for(emitted, id, family) <= creates_for(emitted, id, family)
            &&& (has_allocation_entry(allocs, id, family) <==> (creates_for(emitted, id, family)
                == 1 && frees_for(emitted, id, family) == 0))
            &&& (id.0 >= next_id ==> creates_for(emitted, id, family) == 0)
        }
}

/// The pending queue is exactly the still-undrained tail of the history.
pub open spec fn pending_matches(emitted: Seq<Command>, pending: Seq<Command>) -> bool {
    &&& pending.len() <= emitted.len()
    &&& emitted.subrange(emitted.len() - pending.len(), emitted.len() as int) == pending
}

/// The allocation server state machine.
pub struct Server {
    /// The relay's public addresses.
    pub public_addr: IpStack,
    /// Lowest relay port that may be leased.
    pub lowest_port: u16,
    /// Highest relay port that may be leased.
    pub highest_port: u16,
    /// The stamp secret shared with the portal; drawn at construction.
    pub auth_secret: Vec<u8>,
    /// The injected generator for port selection and nonce issuance.
    pub rng: rand::rngs::StdRng,
    /// The next never-used allocation identifier.
    pub next_allocation_id: u64,
    /// All live allocations.
    pub allocations: Vec<Allocation>,
    /// Commands produced but not yet drained.
    pub pending: Vec<Command>,
    /// The earliest expiry over all expirable objects, `None` if none.
    pub next_deadline: Option<u64>,
    /// The deadline last handed to the event loop in a `Wake`.
    pub announced_deadline: Option<u64>,
    /// Count of `Send` indications dropped for want of a permission.
    pub sends_dropped: u64,
    /// Count of relayed datagrams dropped for want of an allocation or
    /// permission.
    pub relays_dropped: u64,
    /// Every command ever enqueued, in order.
    pub emitted: Ghost<Seq<Command>>,
}

impl Server {
    /// One table entry is acceptable.
    pub open spec fn allocation_entry_ok(self, a: Allocation) -> bool {
        &&& a.wf()
        &&& self.lowest_port <= a.relay_port <= self.highest_port
        &&& self.public_addr.spec_has_family(a.family)
        &&& a.id.0 < self.next_allocation_id
    }

    /// The server's invariants.
    pub open spec fn wf(self) -> bool {
        &&& self.lowest_port <= self.highest_port
        &&& forall|i: int|
            0 <= i < self.allocations@.len() ==> self.allocation_entry_ok(
                #[trigger] self.allocations@[i],
            )
        &&& forall|i: int, j: int|
            0 <= i < j < self.allocations@.len() ==> !(self.allocations@[i].id
                == self.allocations@[j].id && self.allocations@[i].family
                == self.allocations@[j].family)
        &&& forall|i: int, j: int|
            0 <= i < j < self.allocations@.len() ==> !(self.allocations@[i].relay_port
                == self.allocations@[j].relay_port && self.allocations@[i].family
                == self.allocations@[j].family)
        &&& self.next_deadline == spec_deadline(self.allocations@)
        &&& pending_matches(self.emitted@, self.pending@)
        &&& history_ok(self.emitted@, self.allocations@, self.next_allocation_id)
    }

    /// Configuration the handlers never touch.
    pub open spec fn same_config(pre: Server, post: Server) -> bool {
        &&& post.public_addr == pre.public_addr
        &&& post.lowest_port == pre.lowest_port
        &&& post.highest_port == pre.highest_port
        &&& post.auth_secret@ == pre.auth_secret@
    }

    /// The handler appended exactly `delta` to queue and history.
    pub open spec fn queued(pre: Server, post: Server, delta: Seq<Command>) -> bool {
        &&& post.pending@ == pre.pending@ + delta
        &&& post.emitted@ == pre.emitted@ + delta
    }

    /// The allocation table and its bookkeeping are untouched.
    pub open spec fn same_allocations(pre: Server, post: Server) -> bool {
        &&& post.allocations@ == pre.allocations@
        &&& post.next_allocation_id == pre.next_allocation_id
        &&& post.next_deadline == pre.next_deadline
        &&& post.announced_deadline == pre.announced_deadline
    }

    /// Build a server around injected randomness.
    ///
    /// The stamp secret is drawn from the generator: 32 bytes.
    pub fn new(public_addr: IpStack, rng: rand::rngs::StdRng, lowest_port: u16,
        highest_port: u16) -> (r: Server)
        requires
            lowest_port <= highest_port,
        ensures
            r.wf(),
            r.public_addr == public_addr,
            r.lowest_port == lowest_port,
            r.highest_port == highest_port,
            r.allocations@.len() == 0,
            r.pending@.len() == 0,
            r.emitted@.len() == 0,
            r.next_allocation_id == 1,
            r.next_deadline is None,
            r.announced_deadline is None,
            r.auth_secret@.len() == 32,
            r.sends_dropped == 0,
            r.relays_dropped == 0,
    {
        let mut rng = rng;
        let mut secret: Vec<u8> = Vec::new();
        let mut i: usize = 0;
        while i < 32
            invariant
                i <= 32,
                secret@.len() == i,
            decreases 32 - i,
        {
            let word = next_u32(&mut rng);
            secret.push((word % 256) as u8);
            i = i + 1;
        }
        let server = Server {
            public_addr,
            lowest_port,
            highest_port,
            auth_secret: secret,
            rng,
            next_allocation_id: 1,
            allocations: Vec::new(),
            pending: Vec::new(),
            next_deadline: None,
            announced_deadline: None,
            sends_dropped: 0,
            relays_dropped: 0,
            emitted: Ghost(Seq::empty()),
        };
        proof {
            assert(server.emitted@.subrange(0, 0) =~= server.pending@);
            assert forall|id: AllocationId, family: AddressFamily|
                #[trigger] creates_for(server.emitted@, id, family) == 0 && frees_for(
                server.emitted@,
                id,
                family,
            ) == 0 by {
                assert(kept(server.emitted@, |c: Command| c.is_create_for(id, family))
                    =~= Seq::<Command>::empty());
                assert(kept(server.emitted@, |c: Command| c.is_free_for(id, family))
                    =~= Seq::<Command>::empty());
            }
        }
        server
    }

    /// The stamp secret, as handed to the portal in the join message.
    pub fn auth_secret(&self) -> (r: &Vec<u8>)
        ensures
            r@ == self.auth_secret@,
    {
        &self.auth_secret
    }

    /// Push one command onto the queue and into the history.
    fn enqueue(&mut self, c: Command)
        requires
            pending_matches(old(self).emitted@, old(self).pending@),
        ensures
            final(self).pending@ == old(self).pending@.push(c),
            final(self).emitted@ == old(self).emitted@.push(c),
            pending_matches(final(self).emitted@, final(self).pending@),
            final(self).public_addr == old(self).public_addr,
            final(self).lowest_port == old(self).lowest_port,
            final(self).highest_port == old(self).highest_port,
            final(self).auth_secret@ == old(self).auth_secret@,
            final(self).rng == old(self).rng,
            final(self).next_allocation_id == old(self).next_allocation_id,
            final(self).allocations@ == old(self).allocations@,
            final(self).next_deadline == old(self).next_deadline,
            final(self).announced_deadline == old(self).announced_deadline,
            final(self).sends_dropped == old(self).sends_dropped,
            final(self).relays_dropped == old(self).relays_dropped,
    {
        self.pending.push(c);
        proof {
            self.emitted@ = self.emitted@.push(c);
            let e = self.emitted@;
            let p = self.pending@;
            assert(e.subrange(e.len() - p.len(), e.len() as int) =~= p);
        }
    }

    /// Counting is unchanged by commands that do not touch a lifecycle.
    proof fn lemma_counts_after_push(e: Seq<Command>, c: Command)
        ensures
            forall|id: AllocationId, family: AddressFamily|
                #[trigger] creates_for(e.push(c), id, family) == creates_for(e, id, family) + (
                if c.is_create_for(id, family) {
                    1nat
                } else {
                    0nat
                }),
            forall|id: AllocationId, family: AddressFamily|
                #[trigger] frees_for(e.push(c), id, family) == frees_for(e, id, family) + (
                if c.is_free_for(id, family) {
                    1nat
                } else {
                    0nat
                }),
    {
        assert forall|id: AllocationId, family: AddressFamily|
            #[trigger] creates_for(e.push(c), id, family) == creates_for(e, id, family) + (
            if c.is_create_for(id, family) {
                1nat
            } else {
                0nat
            }) by {
            lemma_kept_push(e, |cc: Command| cc.is_create_for(id, family), c);
        }
        assert forall|id: AllocationId, family: AddressFamily|
            #[trigger] frees_for(e.push(c), id, family) == frees_for(e, id, family) + (
            if c.is_free_for(id, family) {
                1nat
            } else {
                0nat
            }) by {
            lemma_kept_push(e, |cc: Command| cc.is_free_for(id, family), c);
        }
    }

    /// Recompute `next_deadline` from the table.
    fn update_deadline(&mut self)
        ensures
            final(self).next_deadline == spec_deadline(final(self).allocations@),
            final(self).pending@ == old(self).pending@,
            final(self).emitted@ == old(self).emitted@,
            final(self).public_addr == old(self).public_addr,
            final(self).lowest_port == old(self).lowest_port,
            final(self).highest_port == old(self).highest_port,
            final(self).auth_secret@ == old(self).auth_secret@,
            final(self).rng == old(self).rng,
            final(self).next_allocation_id == old(self).next_allocation_id,
            final(self).allocations@ == old(self).allocations@,
            final(self).announced_deadline == old(self).announced_deadline,
            final(self).sends_dropped == old(self).sends_dropped,
            final(self).relays_dropped == old(self).relays_dropped,
    {
        if self.allocations.len() == 0 {
            self.next_deadline = None;
            return;
        }
        let mut acc: u64 = u64::MAX;
        let mut i: usize = 0;
        while i < self.allocations.len()
            invariant
                i <= self.allocations@.len(),
                acc == allocations_min(self.allocations@.subrange(0, i as int)),
            decreases self.allocations@.len() - i,
        {
            let e = self.allocations[i].earliest_expiry();
            proof {
                assert(self.allocations@.subrange(0, i as int + 1)
                    =~= self.allocations@.subrange(0, i as int).push(self.allocations@[i as int]));
                lemma_allocations_min_push(
                    self.allocations@.subrange(0, i as int),
                    self.allocations@[i as int],
                );
            }
            if e < acc {
                acc = e;
            }
            i = i + 1;
        }
        proof {
            assert(self.allocations@.subrange(0, self.allocations@.len() as int)
                =~= self.allocations@);
        }
        self.next_deadline = Some(acc);
    }

    /// Whether some allocation belongs to the client at `addr`.
    fn client_allocation_exists(&self, addr: SocketAddr) -> (r: bool)
        ensures
            r == has_client_allocation(self.allocations@, addr),
    {
        let mut i: usize = 0;
        while i < self.allocations.len()
            invariant
                i <= self.allocations@.len(),
                forall|j: int|
                    0 <= j < i ==> (#[trigger] self.allocations@[j]).client_addr != addr,
            decreases self.allocations@.len() - i,
        {
            if self.allocations[i].client_addr == addr {
                return true;
            }
            i = i + 1;
        }
        false
    }

    /// Whether `port` is leased for `family`.
    fn port_is_free(&self, port: u16, family: AddressFamily) -> (r: bool)
        ensures
            r == !port_in_use(self.allocations@, port, family),
    {
        let mut i: usize = 0;
        while i < self.allocations.len()
            invariant
                i <= self.allocations@.len(),
                forall|j: int|
                    0 <= j < i ==> !((#[trigger] self.allocations@[j]).relay_port == port
                        && self.allocations@[j].family == family),
            decreases self.allocations@.len() - i,
        {
            if self.allocations[i].relay_port == port && self.allocations[i].family == family {
                return false;
            }
            i = i + 1;
        }
        true
    }

    /// The index of the allocation `(id, family)`, unique when `wf` holds.
    fn find_allocation_by_id(&self, id: AllocationId, family: AddressFamily) -> (r: Option<
        usize,
    >)
        ensures
            match r {
                Some(i) => i < self.allocations@.len() && self.allocations@[i as int].id == id
                    && self.allocations@[i as int].family == family,
                None => !has_allocation_entry(self.allocations@, id, family),
            },
    {
        let mut i: usize = 0;
        while i < self.allocations.len()
            invariant
                i <= self.allocations@.len(),
                forall|j: int|
                    0 <= j < i ==> !((#[trigger] self.allocations@[j]).id == id
                        && self.allocations@[j].family == family),
            decreases self.allocations@.len() - i,
        {
            if self.allocations[i].id.0 == id.0 && self.allocations[i].family == family {
                return Some(i);
            }
            i = i + 1;
        }
        None
    }

    /// The index of the first allocation of `addr` with `family`.
    fn find_client_allocation(&self, addr: SocketAddr, family: AddressFamily) -> (r: Option<
        usize,
    >)
        ensures
            match r {
                Some(i) => i < self.allocations@.len() && self.allocations@[i as int].client_addr
                    == addr && self.allocations@[i as int].family == family && forall|j: int|
                    0 <= j < i ==> !((#[trigger] self.allocations@[j]).client_addr == addr
                        && self.allocations@[j].family == family),
                None => !spec_has_client_family(self.allocations@, addr, family),
            },
    {
        let mut i: usize = 0;
        while i < self.allocations.len()
            invariant
                i <= self.allocations@.len(),
                forall|j: int|
                    0 <= j < i ==> !((#[trigger] self.allocations@[j]).client_addr == addr
                        && self.allocations@[j].family == family),
            decreases self.allocations@.len() - i,
        {
            if self.allocations[i].client_addr == addr && self.allocations[i].family == family {
                return Some(i);
            }
            i = i + 1;
        }
        None
    }

    /// Pushing a command that touches no lifecycle leaves the ledger intact.
    proof fn lemma_history_after_benign_push(
        e: Seq<Command>,
        allocs: Seq<Allocation>,
        next_id: u64,
        c: Command,
    )
        requires
            history_ok(e, allocs, next_id),
            !c.is_lifecycle(),
        ensures
            history_ok(e.push(c), allocs, next_id),
    {
        Server::lemma_counts_after_push(e, c);
        assert forall|id: AllocationId, family: AddressFamily|
            {
                &&& #[trigger] creates_for(e.push(c), id, family) <= 1
                &&& frees_for(e.push(c), id, family) <= creates_for(e.push(c), id, family)
                &&& (has_allocation_entry(allocs, id, family) <==> (creates_for(
                    e.push(c),
                    id,
                    family,
                ) == 1 && frees_for(e.push(c), id, family) == 0))
                &&& (id.0 >= next_id ==> creates_for(e.push(c), id, family) == 0)
            } by {
            assert(creates_for(e, id, family) <= 1);
            assert(!c.is_create_for(id, family) && !c.is_free_for(id, family));
        }
    }

    /// A `Wake` is owed: the earliest deadline is not yet announced, or
    /// lies before what was announced.
    pub open spec fn wake_needed(self) -> bool {
        match (self.next_deadline, self.announced_deadline) {
            (Some(d), None) => true,
            (Some(d), Some(a)) => d < a,
            _ => false,
        }
    }

    /// Drain the next command, FIFO.
    ///
    /// When the queue is empty and the earliest deadline has shrunk below
    /// what the event loop last heard, a `Wake` for it is handed out
    /// instead; spurious earlier timer fires are harmless because
    /// `handle_deadline_reached` is idempotent.
    pub fn next_command(&mut self) -> (r: Option<Command>)
        requires
            old(self).wf(),
        ensures
            final(self).wf(),
            Server::same_config(*old(self), *final(self)),
            final(self).allocations@ == old(self).allocations@,
            final(self).next_allocation_id == old(self).next_allocation_id,
            final(self).next_deadline == old(self).next_deadline,
            final(self).sends_dropped == old(self).sends_dropped,
            final(self).relays_dropped == old(self).relays_dropped,
            old(self).pending@.len() > 0 ==> r == Some(old(self).pending@[0]) && final(self).pending@ == old(self).pending@.drop_first() && final(self).emitted@ == old(self).emitted@ && final(self).announced_deadline == old(self).announced_deadline,
            old(self).pending@.len() == 0 && old(self).wake_needed() ==> (old(self).next_deadline matches Some(d) && r == Some(Command::Wake { deadline: d })
                && final(self).pending@.len() == 0 && final(self).emitted@ == old(self).emitted@.push(Command::Wake { deadline: d }) && final(self).announced_deadline
                == Some(d)),
            old(self).pending@.len() == 0 && !old(self).wake_needed() ==> r is None && final(self).pending@ == old(self).pending@ && final(self).emitted@ == old(self).emitted@
                && final(self).announced_deadline == old(self).announced_deadline,
    {
        let ghost pre = *self;
        if self.pending.len() > 0 {
            let c = self.pending.remove(0);
            proof {
                assert(self.pending@ =~= pre.pending@.drop_first());
                let e = self.emitted@;
                let p = self.pending@;
                assert(e.subrange(e.len() - p.len(), e.len() as int) =~= p);
            }
            return Some(c);
        }
        let deadline = match self.next_deadline {
            Some(d) => d,
            None => {
                return None;
            },
        };
        let announce = match self.announced_deadline {
            Some(a) => deadline < a,
            None => true,
        };
        if announce {
            let c = Command::Wake { deadline };
            self.announced_deadline = Some(deadline);
            proof {
                self.emitted@ = self.emitted@.push(c);
                let e = self.emitted@;
                let p = self.pending@;
                assert(e.subrange(e.len() - p.len(), e.len() as int) =~= p);
                Server::lemma_counts_after_push(pre.emitted@, c);
            }
            Some(c)
        } else {
            None
        }
    }

    /// Ingest a datagram a peer sent into allocation `allocation_id`.
    ///
    /// The datagram is wrapped for the allocation's client: over the bound
    /// channel if the peer has one, as a `Data` indication if the peer only
    /// holds a permission entry, and dropped (counted) otherwise or when no
    /// such allocation exists.  Expired state never relays because expired
    /// bindings, permissions and allocations are pruned when the deadline
    /// timer fires.
    pub fn handle_relay_input(&mut self, data: Vec<u8>, sender: SocketAddr,
        allocation_id: AllocationId)
        requires
            old(self).wf(),
        ensures
            final(self).wf(),
            Server::same_config(*old(self), *final(self)),
            Server::same_allocations(*old(self), *final(self)),
            final(self).sends_dropped == old(self).sends_dropped,
            ({
                let s = old(self).allocations@;
                let fam = sender.spec_family();
                if has_allocation_entry(s, allocation_id, fam) {
                    exists|i: int|
                        0 <= i < s.len() && (#[trigger] s[i]).id == allocation_id
                            && s[i].family == fam && relay_outcome_at(
                            *old(self),
                            *final(self),
                            data,
                            sender,
                            i,
                        )
                } else {
                    final(self).pending@ == old(self).pending@ && final(self).emitted@ == old(
                        self,
                    ).emitted@ && final(self).relays_dropped == inc64(old(self).relays_dropped)
                }
            }),
    {
        let ghost pre = *self;
        let fam = sender.family();
        let idx = match self.find_allocation_by_id(allocation_id, fam) {
            Some(i) => i,
            None => {
                self.relays_dropped = saturating_inc(self.relays_dropped);
                return;
            },
        };
        let client = self.allocations[idx].client_addr;
        match self.allocations[idx].find_channel_by_peer(sender) {
            Some(ci) => {
                let number = self.allocations[idx].channels[ci].number;
                let msg = Message::ChannelDataMessage { channel: number, data };
                self.enqueue(Command::SendMessage { payload: msg, recipient: client });
                proof {
                    assert(self.pending@ =~= pre.pending@ + seq![
                        send_to(
                            Message::ChannelDataMessage {
                                channel: pre.allocations@[idx as int].channels@[
                                    ci as int].number,
                                data,
                            },
                            pre.allocations@[idx as int].client_addr,
                        ),
                    ]);
                    assert(self.emitted@ =~= pre.emitted@ + seq![
                        send_to(
                            Message::ChannelDataMessage {
                                channel: pre.allocations@[idx as int].channels@[
                                    ci as int].number,
                                data,
                            },
                            pre.allocations@[idx as int].client_addr,
                        ),
                    ]);
                    Server::lemma_history_after_benign_push(
                        pre.emitted@,
                        pre.allocations@,
                        pre.next_allocation_id,
                        self.emitted@.last(),
                    );
                    assert(relay_outcome_at(pre, *self, data, sender, idx as int));
                }
            },
            None => {
                if self.allocations[idx].find_permission(sender.ip).is_some() {
                    let msg = Message::DataIndication { peer: sender, data };
                    self.enqueue(Command::SendMessage { payload: msg, recipient: client });
                    proof {
                        assert(self.pending@ =~= pre.pending@ + seq![
                            send_to(
                                Message::DataIndication { peer: sender, data },
                                pre.allocations@[idx as int].client_addr,
                            ),
                        ]);
                        assert(self.emitted@ =~= pre.emitted@ + seq![
                            send_to(
                                Message::DataIndication { peer: sender, data },
                                pre.allocations@[idx as int].client_addr,
                            ),
                        ]);
                        Server::lemma_history_after_benign_push(
                            pre.emitted@,
                            pre.allocations@,
                            pre.next_allocation_id,
                            self.emitted@.last(),
                        );
                        assert(relay_outcome_at(pre, *self, data, sender, idx as int));
                    }
                } else {
                    self.relays_dropped = saturating_inc(self.relays_dropped);
                    proof {
                        assert(relay_outcome_at(pre, *self, data, sender, idx as int));
                    }
                }
            },
        }
    }
    /// Drop every allocation with identifier `id`, announcing one
    /// `FreeAllocation` per table entry, in table order.
    ///
    /// The event loop calls this when an allocation's relay socket failed;
    /// it is idempotent because a second call finds no entry.
    pub fn handle_allocation_failed(&mut self, id: AllocationId)
        requires
            old(self).wf(),
        ensures
            final(self).wf(),
            Server::same_config(*old(self), *final(self)),
            final(self).next_allocation_id == old(self).next_allocation_id,
            final(self).announced_deadline == old(self).announced_deadline,
            final(self).sends_dropped == old(self).sends_dropped,
            final(self).relays_dropped == old(self).relays_dropped,
            final(self).allocations@ == kept(
                old(self).allocations@,
                |a: Allocation| a.id != id,
            ),
            final(self).pending@ == old(self).pending@ + kept(
                old(self).allocations@,
                |a: Allocation| a.id == id,
            ).map_values(|a: Allocation| free_command(a)),
            final(self).emitted@ == old(self).emitted@ + kept(
                old(self).allocations@,
                |a: Allocation| a.id == id,
            ).map_values(|a: Allocation| free_command(a)),
    {
        let ghost pre = *self;
        let ghost keep_p = |a: Allocation| a.id != id;
        let ghost drop_p = |a: Allocation| a.id == id;
        let ghost all = pre.allocations@;
        let mut source: Vec<Allocation> = Vec::new();
        core::mem::swap(&mut source, &mut self.allocations);
        proof {
            assert(source@ =~= all.skip(0));
            assert(all.take(0) =~= Seq::<Allocation>::empty());
            assert(self.allocations@ =~= kept(all.take(0), keep_p));
            assert(kept(all.take(0), drop_p).map_values(|a: Allocation| free_command(a))
                =~= Seq::<Command>::empty());
            assert(self.pending@ =~= pre.pending@ + kept(all.take(0), drop_p).map_values(
                |a: Allocation| free_command(a),
            ));
            assert(self.allocations@ + source@ =~= all);
        }
        while source.len() > 0
            invariant
                keep_p == (|a: Allocation| a.id != id),
                drop_p == (|a: Allocation| a.id == id),
                all == pre.allocations@,
                source@.len() <= all.len(),
                source@ == all.skip(all.len() - source@.len()),
                self.allocations@ == kept(all.take(all.len() - source@.len()), keep_p),
                self.pending@ == pre.pending@ + kept(
                    all.take(all.len() - source@.len()),
                    drop_p,
                ).map_values(|a: Allocation| free_command(a)),
                self.emitted@ == pre.emitted@ + kept(
                    all.take(all.len() - source@.len()),
                    drop_p,
                ).map_values(|a: Allocation| free_command(a)),
                pending_matches(self.emitted@, self.pending@),
                history_ok(
                    self.emitted@,
                    self.allocations@ + source@,
                    self.next_allocation_id,
                ),
                forall|i: int, j: int|
                    0 <= i < j < (self.allocations@ + source@).len() ==> !((self.allocations@
                        + source@)[i].id == (self.allocations@ + source@)[j].id && (
                    self.allocations@ + source@)[i].family == (self.allocations@
                        + source@)[j].family),
                forall|i: int, j: int|
                    0 <= i < j < (self.allocations@ + source@).len() ==> !((self.allocations@
                        + source@)[i].relay_port == (self.allocations@ + source@)[j].relay_port
                        && (self.allocations@ + source@)[i].family == (self.allocations@
                        + source@)[j].family),
                forall|i: int|
                    0 <= i < (self.allocations@ + source@).len() ==> pre.allocation_entry_ok(
                        #[trigger] (self.allocations@ + source@)[i],
                    ),
                self.public_addr == pre.public_addr,
                self.lowest_port == pre.lowest_port,
                self.highest_port == pre.highest_port,
                self.auth_secret@ == pre.auth_secret@,
                self.rng == pre.rng,
                self.next_allocation_id == pre.next_allocation_id,
                self.announced_deadline == pre.announced_deadline,
                self.sends_dropped == pre.sends_dropped,
                self.relays_dropped == pre.relays_dropped,
            decreases source@.len(),
        {
            let ghost done = all.len() - source@.len();
            let ghost src0 = source@;
            let ghost kept_before = self.allocations@;
            let ghost combined_pre = self.allocations@ + source@;
            let a = source.remove(0);
            proof {
                assert(all.take(done + 1) =~= all.take(done).push(a));
                lemma_kept_push(all.take(done), keep_p, a);
                lemma_kept_push(all.take(done), drop_p, a);
                assert(source@ =~= all.skip(all.len() - source@.len()));
                assert(src0 =~= seq![a] + source@);
            }
            if a.id.0 == id.0 {
                let ghost e0 = self.emitted@;
                self.enqueue(Command::FreeAllocation { id: a.id, family: a.family });
                proof {
                    assert(kept(all.take(done + 1), drop_p) =~= kept(all.take(done), drop_p).push(
                        a,
                    ));
                    assert(kept(all.take(done + 1), drop_p).map_values(
                        |x: Allocation| free_command(x),
                    ) =~= kept(all.take(done), drop_p).map_values(
                        |x: Allocation| free_command(x),
                    ).push(free_command(a)));
                    assert(self.pending@ =~= pre.pending@ + kept(
                        all.take(done + 1),
                        drop_p,
                    ).map_values(|x: Allocation| free_command(x)));
                    assert(self.emitted@ =~= pre.emitted@ + kept(
                        all.take(done + 1),
                        drop_p,
                    ).map_values(|x: Allocation| free_command(x)));
                    let combined_post = self.allocations@ + source@;
                    assert(combined_pre =~= kept_before + (seq![a] + source@));
                    // every index of the new combined table maps into the old
                    assert forall|i: int|
                        0 <= i < combined_post.len() implies combined_post[i] == (
                    if i < kept_before.len() {
                        combined_pre[i]
                    } else {
                        combined_pre[i + 1]
                    }) by {}
                    // the freed pair leaves the table entirely: the kept
                    // prefix never holds id, and a second entry in the tail
                    // would break pairwise distinctness
                    assert forall|i: int|
                        0 <= i < kept_before.len() implies (#[trigger] kept_before[i]).id
                        != a.id by {
                        lemma_kept_source(all.take(done), keep_p, i);
                    }
                    assert(!has_allocation_entry(combined_post, a.id, a.family)) by {
                        if has_allocation_entry(combined_post, a.id, a.family) {
                            let w = choose|w: int|
                                0 <= w < combined_post.len() && (#[trigger] combined_post[w]).id
                                    == a.id && combined_post[w].family == a.family;
                            if w < kept_before.len() {
                                assert(kept_before[w].id != a.id);
                            } else {
                                assert(combined_pre[kept_before.len() as int] == a);
                                assert(combined_pre[w + 1] == combined_post[w]);
                            }
                        }
                    }
                    Server::lemma_counts_after_push(e0, free_command(a));
                    assert forall|id2: AllocationId, f2: AddressFamily|
                        {
                            &&& #[trigger] creates_for(self.emitted@, id2, f2) <= 1
                            &&& frees_for(self.emitted@, id2, f2) <= creates_for(
                                self.emitted@,
                                id2,
                                f2,
                            )
                            &&& (has_allocation_entry(combined_post, id2, f2) <==> (creates_for(
                                self.emitted@,
                                id2,
                                f2,
                            ) == 1 && frees_for(self.emitted@, id2, f2) == 0))
                            &&& (id2.0 >= self.next_allocation_id ==> creates_for(
                                self.emitted@,
                                id2,
                                f2,
                            ) == 0)
                        } by {
                        assert(creates_for(e0, id2, f2) <= 1);
                        if id2 == a.id && f2 == a.family {
                            assert(has_allocation_entry(combined_pre, a.id, a.family)) by {
                                assert(combined_pre[kept_before.len() as int] == a);
                            }
                            assert(creates_for(e0, id2, f2) == 1 && frees_for(e0, id2, f2)
                                == 0);
                        } else {
                            // the entry set for every other pair is unchanged
                            assert(has_allocation_entry(combined_post, id2, f2)
                                <==> has_allocation_entry(combined_pre, id2, f2)) by {
                                if has_allocation_entry(combined_post, id2, f2) {
                                    let w = choose|w: int|
                                        0 <= w < combined_post.len() && (
                                        #[trigger] combined_post[w]).id == id2
                                            && combined_post[w].family == f2;
                                    if w < kept_before.len() {
                                        assert(combined_pre[w] == combined_post[w]);
                                    } else {
                                        assert(combined_pre[w + 1] == combined_post[w]);
                                    }
                                }
                                if has_allocation_entry(combined_pre, id2, f2) {
                                    let w = choose|w: int|
                                        0 <= w < combined_pre.len() && (
                                        #[trigger] combined_pre[w]).id == id2
                                            && combined_pre[w].family == f2;
                                    if w < kept_before.len() {
                                        assert(combined_post[w] == combined_pre[w]);
                                    } else if w == kept_before.len() {
                                        assert(combined_pre[w] == a);
                                    } else {
                                        assert(combined_post[w - 1] == combined_pre[w]);
                                    }
                                }
                            }
                        }
                    }
                    // distinctness and entry quality carry over by the index map
                    assert forall|i: int, j: int|
                        0 <= i < j < combined_post.len() implies !(combined_post[i].id
                        == combined_post[j].id && combined_post[i].family
                        == combined_post[j].family) by {
                        let i2: int = if i < kept_before.len() {
                            i
                        } else {
                            i + 1
                        };
                        let j2: int = if j < kept_before.len() {
                            j
                        } else {
                            j + 1
                        };
                        assert(combined_post[i] == combined_pre[i2]);
                        assert(combined_post[j] == combined_pre[j2]);
                    }
                    assert forall|i: int, j: int|
                        0 <= i < j < combined_post.len() implies !(combined_post[i].relay_port
                        == combined_post[j].relay_port && combined_post[i].family
                        == combined_post[j].family) by {
                        let i2: int = if i < kept_before.len() {
                            i
                        } else {
                            i + 1
                        };
                        let j2: int = if j < kept_before.len() {
                            j
                        } else {
                            j + 1
                        };
                        assert(combined_post[i] == combined_pre[i2]);
                        assert(combined_post[j] == combined_pre[j2]);
                    }
                    assert forall|i: int|
                        0 <= i < combined_post.len() implies pre.allocation_entry_ok(
                        #[trigger] combined_post[i],
                    ) by {
                        let i2: int = if i < kept_before.len() {
                            i
                        } else {
                            i + 1
                        };
                        assert(combined_post[i] == combined_pre[i2]);
                    }
                }
            } else {
                self.allocations.push(a);
                proof {
                    assert(self.allocations@ + source@ =~= combined_pre);
                    assert(kept(all.take(done + 1), keep_p) =~= self.allocations@);
                    assert(kept(all.take(done + 1), drop_p) =~= kept(all.take(done), drop_p));
                    assert(kept(all.take(done + 1), drop_p).map_values(
                        |x: Allocation| free_command(x),
                    ) =~= kept(all.take(done), drop_p).map_values(
                        |x: Allocation| free_command(x),
                    ));
                }
            }
        }
        proof {
            assert(all.take(all.len() as int) =~= all);
            assert(self.allocations@ + source@ =~= self.allocations@);
        }
        self.update_deadline();
    }

    /// Drop every allocation of the client at `addr`, announcing one
    /// `FreeAllocation` per table entry, in table order.
    fn free_client_allocations(&mut self, addr: SocketAddr)
        requires
            old(self).wf(),
        ensures
            final(self).wf(),
            Server::same_config(*old(self), *final(self)),
            final(self).next_allocation_id == old(self).next_allocation_id,
            final(self).announced_deadline == old(self).announced_deadline,
            final(self).sends_dropped == old(self).sends_dropped,
            final(self).relays_dropped == old(self).relays_dropped,
            final(self).allocations@ == kept(
                old(self).allocations@,
                |a: Allocation| a.client_addr != addr,
            ),
            final(self).pending@ == old(self).pending@ + kept(
                old(self).allocations@,
                |a: Allocation| a.client_addr == addr,
            ).map_values(|a: Allocation| free_command(a)),
            final(self).emitted@ == old(self).emitted@ + kept(
                old(self).allocations@,
                |a: Allocation| a.client_addr == addr,
            ).map_values(|a: Allocation| free_command(a)),
    {
        let ghost pre = *self;
        let ghost keep_p = |a: Allocation| a.client_addr != addr;
        let ghost drop_p = |a: Allocation| a.client_addr == addr;
        let ghost all = pre.allocations@;
        let mut source: Vec<Allocation> = Vec::new();
        core::mem::swap(&mut source, &mut self.allocations);
        proof {
            assert(source@ =~= all.skip(0));
            assert(all.take(0) =~= Seq::<Allocation>::empty());
            assert(self.allocations@ =~= kept(all.take(0), keep_p));
            assert(kept(all.take(0), drop_p).map_values(|a: Allocation| free_command(a))
                =~= Seq::<Command>::empty());
            assert(self.pending@ =~= pre.pending@ + kept(all.take(0), drop_p).map_values(
                |a: Allocation| free_command(a),
            ));
            assert(self.allocations@ + source@ =~= all);
        }
        while source.len() > 0
            invariant
                keep_p == (|a: Allocation| a.client_addr != addr),
                drop_p == (|a: Allocation| a.client_addr == addr),
                all == pre.allocations@,
                source@.len() <= all.len(),
                source@ == all.skip(all.len() - source@.len()),
                self.allocations@ == kept(all.take(all.len() - source@.len()), keep_p),
                self.pending@ == pre.pending@ + kept(
                    all.take(all.len() - source@.len()),
                    drop_p,
                ).map_values(|a: Allocation| free_command(a)),
                self.emitted@ == pre.emitted@ + kept(
                    all.take(all.len() - source@.len()),
                    drop_p,
                ).map_values(|a: Allocation| free_command(a)),
                pending_matches(self.emitted@, self.pending@),
                history_ok(
                    self.emitted@,
                    self.allocations@ + source@,
                    self.next_allocation_id,
                ),
                forall|i: int, j: int|
                    0 <= i < j < (self.allocations@ + source@).len() ==> !((self.allocations@
                        + source@)[i].id == (self.allocations@ + source@)[j].id && (
                    self.allocations@ + source@)[i].family == (self.allocations@
                        + source@)[j].family),
                forall|i: int, j: int|
                    0 <= i < j < (self.allocations@ + source@).len() ==> !((self.allocations@
                        + source@)[i].relay_port == (self.allocations@ + source@)[j].relay_port
                        && (self.allocations@ + source@)[i].family == (self.allocations@
                        + source@)[j].family),
                forall|i: int|
                    0 <= i < (self.allocations@ + source@).len() ==> pre.allocation_entry_ok(
                        #[trigger] (self.allocations@ + source@)[i],
                    ),
                self.public_addr == pre.public_addr,
                self.lowest_port == pre.lowest_port,
                self.highest_port == pre.highest_port,
                self.auth_secret@ == pre.auth_secret@,
                self.rng == pre.rng,
                self.next_allocation_id == pre.next_allocation_id,
                self.announced_deadline == pre.announced_deadline,
                self.sends_dropped == pre.sends_dropped,
                self.relays_dropped == pre.relays_dropped,
            decreases source@.len(),
        {
            let ghost done = all.len() - source@.len();
            let ghost src0 = source@;
            let ghost kept_before = self.allocations@;
            let ghost combined_pre = self.allocations@ + source@;
            let a = source.remove(0);
            proof {
                assert(all.take(done + 1) =~= all.take(done).push(a));
                lemma_kept_push(all.take(done), keep_p, a);
                lemma_kept_push(all.take(done), drop_p, a);
                assert(source@ =~= all.skip(all.len() - source@.len()));
                assert(src0 =~= seq![a] + source@);
            }
            if a.client_addr == addr {
                let ghost e0 = self.emitted@;
                self.enqueue(Command::FreeAllocation { id: a.id, family: a.family });
                proof {
                    assert(kept(all.take(done + 1), drop_p) =~= kept(all.take(done), drop_p).push(
                        a,
                    ));
                    assert(kept(all.take(done + 1), drop_p).map_values(
                        |x: Allocation| free_command(x),
                    ) =~= kept(all.take(done), drop_p).map_values(
                        |x: Allocation| free_command(x),
                    ).push(free_command(a)));
                    assert(self.pending@ =~= pre.pending@ + kept(
                        all.take(done + 1),
                        drop_p,
                    ).map_values(|x: Allocation| free_command(x)));
                    assert(self.emitted@ =~= pre.emitted@ + kept(
                        all.take(done + 1),
                        drop_p,
                    ).map_values(|x: Allocation| free_command(x)));
                    let combined_post = self.allocations@ + source@;
                    assert(combined_pre =~= kept_before + (seq![a] + source@));
                    // every index of the new combined table maps into the old
                    assert forall|i: int|
                        0 <= i < combined_post.len() implies combined_post[i] == (
                    if i < kept_before.len() {
                        combined_pre[i]
                    } else {
                        combined_pre[i + 1]
                    }) by {}
                    // the freed pair leaves the table entirely: the kept
                    // prefix never holds id, and a second entry in the tail
                    // would break pairwise distinctness
                    assert forall|i: int|
                        0 <= i < kept_before.len() implies (#[trigger] kept_before[i]).client_addr
                        != a.client_addr by {
                        lemma_kept_source(all.take(done), keep_p, i);
                    }
                    assert(!has_allocation_entry(combined_post, a.id, a.family)) by {
                        if has_allocation_entry(combined_post, a.id, a.family) {
                            let w = choose|w: int|
                                0 <= w < combined_post.len() && (#[trigger] combined_post[w]).id
                                    == a.id && combined_post[w].family == a.family;
                            if w < kept_before.len() {
                                assert(kept_before[w].client_addr != a.client_addr);
                            } else {
                                assert(combined_pre[kept_before.len() as int] == a);
                                assert(combined_pre[w + 1] == combined_post[w]);
                            }
                        }
                    }
                    Server::lemma_counts_after_push(e0, free_command(a));
                    assert forall|id2: AllocationId, f2: AddressFamily|
                        {
                            &&& #[trigger] creates_for(self.emitted@, id2, f2) <= 1
                            &&& frees_for(self.emitted@, id2, f2) <= creates_for(
                                self.emitted@,
                                id2,
                                f2,
                            )
                            &&& (has_allocation_entry(combined_post, id2, f2) <==> (creates_for(
                                self.emitted@,
                                id2,
                                f2,
                            ) == 1 && frees_for(self.emitted@, id2, f2) == 0))
                            &&& (id2.0 >= self.next_allocation_id ==> creates_for(
                                self.emitted@,
                                id2,
                                f2,
                            ) == 0)
                        } by {
                        assert(creates_for(e0, id2, f2) <= 1);
                        if id2 == a.id && f2 == a.family {
                            assert(has_allocation_entry(combined_pre, a.id, a.family)) by {
                                assert(combined_pre[kept_before.len() as int] == a);
                            }
                            assert(creates_for(e0, id2, f2) == 1 && frees_for(e0, id2, f2)
                                == 0);
                        } else {
                            // the entry set for every other pair is unchanged
                            assert(has_allocation_entry(combined_post, id2, f2)
                                <==> has_allocation_entry(combined_pre, id2, f2)) by {
                                if has_allocation_entry(combined_post, id2, f2) {
                                    let w = choose|w: int|
                                        0 <= w < combined_post.len() && (
                                        #[trigger] combined_post[w]).id == id2
                                            && combined_post[w].family == f2;
                                    if w < kept_before.len() {
                                        assert(combined_pre[w] == combined_post[w]);
                                    } else {
                                        assert(combined_pre[w + 1] == combined_post[w]);
                                    }
                                }
                                if has_allocation_entry(combined_pre, id2, f2) {
                                    let w = choose|w: int|
                                        0 <= w < combined_pre.len() && (
                                        #[trigger] combined_pre[w]).id == id2
                                            && combined_pre[w].family == f2;
                                    if w < kept_before.len() {
                                        assert(combined_post[w] == combined_pre[w]);
                                    } else if w == kept_before.len() {
                                        assert(combined_pre[w] == a);
                                    } else {
                                        assert(combined_post[w - 1] == combined_pre[w]);
                                    }
                                }
                            }
                        }
                    }
                    // distinctness and entry quality carry over by the index map
                    assert forall|i: int, j: int|
                        0 <= i < j < combined_post.len() implies !(combined_post[i].id
                        == combined_post[j].id && combined_post[i].family
                        == combined_post[j].family) by {
                        let i2: int = if i < kept_before.len() {
                            i
                        } else {
                            i + 1
                        };
                        let j2: int = if j < kept_before.len() {
                            j
                        } else {
                            j + 1
                        };
                        assert(combined_post[i] == combined_pre[i2]);
                        assert(combined_post[j] == combined_pre[j2]);
                    }
                    assert forall|i: int, j: int|
                        0 <= i < j < combined_post.len() implies !(combined_post[i].relay_port
                        == combined_post[j].relay_port && combined_post[i].family
                        == combined_post[j].family) by {
                        let i2: int = if i < kept_before.len() {
                            i
                        } else {
                            i + 1
                        };
                        let j2: int = if j < kept_before.len() {
                            j
                        } else {
                            j + 1
                        };
                        assert(combined_post[i] == combined_pre[i2]);
                        assert(combined_post[j] == combined_pre[j2]);
                    }
                    assert forall|i: int|
                        0 <= i < combined_post.len() implies pre.allocation_entry_ok(
                        #[trigger] combined_post[i],
                    ) by {
                        let i2: int = if i < kept_before.len() {
                            i
                        } else {
                            i + 1
                        };
                        assert(combined_post[i] == combined_pre[i2]);
                    }
                }
            } else {
                self.allocations.push(a);
                proof {
                    assert(self.allocations@ + source@ =~= combined_pre);
                    assert(kept(all.take(done + 1), keep_p) =~= self.allocations@);
                    assert(kept(all.take(done + 1), drop_p) =~= kept(all.take(done), drop_p));
                    assert(kept(all.take(done + 1), drop_p).map_values(
                        |x: Allocation| free_command(x),
                    ) =~= kept(all.take(done), drop_p).map_values(
                        |x: Allocation| free_command(x),
                    ));
                }
            }
        }
        proof {
            assert(all.take(all.len() as int) =~= all);
            assert(self.allocations@ + source@ =~= self.allocations@);
        }
        self.update_deadline();
    }

    /// Expire everything whose deadline has passed at `now`.
    ///
    /// Permissions and channel bindings of surviving allocations are
    /// pruned silently; an allocation past its expiry is removed and
    /// announced with one `FreeAllocation`, in table order.  The call is
    /// idempotent, so a spurious early timer fire is harmless.  The
    /// announced deadline is cleared so that the next drain re-arms the
    /// timer to the new earliest expiry.
    pub fn handle_deadline_reached(&mut self, now: u64)
        requires
            old(self).wf(),
        ensures
            final(self).wf(),
            Server::same_config(*old(self), *final(self)),
            final(self).next_allocation_id == old(self).next_allocation_id,
            final(self).announced_deadline is None,
            final(self).sends_dropped == old(self).sends_dropped,
            final(self).relays_dropped == old(self).relays_dropped,
            final(self).allocations@.len() == kept(
                old(self).allocations@,
                |a: Allocation| a.expiry > now,
            ).len(),
            forall|i: int|
                0 <= i < final(self).allocations@.len() ==> pruned_rel(
                    kept(old(self).allocations@, |a: Allocation| a.expiry > now)[i],
                    #[trigger] final(self).allocations@[i],
                    now,
                ),
            final(self).pending@ == old(self).pending@ + kept(
                old(self).allocations@,
                |a: Allocation| a.expiry <= now,
            ).map_values(|a: Allocation| free_command(a)),
            final(self).emitted@ == old(self).emitted@ + kept(
                old(self).allocations@,
                |a: Allocation| a.expiry <= now,
            ).map_values(|a: Allocation| free_command(a)),
    {
        let ghost pre = *self;
        let ghost keep_p = |a: Allocation| a.expiry > now;
        let ghost drop_p = |a: Allocation| a.expiry <= now;
        let ghost all = pre.allocations@;
        let mut source: Vec<Allocation> = Vec::new();
        core::mem::swap(&mut source, &mut self.allocations);
        proof {
            assert(source@ =~= all.skip(0));
            assert(all.take(0) =~= Seq::<Allocation>::empty());
            assert(kept(all.take(0), keep_p) =~= Seq::<Allocation>::empty());
            assert(kept(all.take(0), drop_p).map_values(|a: Allocation| free_command(a))
                =~= Seq::<Command>::empty());
            assert(self.pending@ =~= pre.pending@ + kept(all.take(0), drop_p).map_values(
                |a: Allocation| free_command(a),
            ));
            assert(self.allocations@ + source@ =~= all);
        }
        while source.len() > 0
            invariant
                keep_p == (|a: Allocation| a.expiry > now),
                drop_p == (|a: Allocation| a.expiry <= now),
                all == pre.allocations@,
                source@.len() <= all.len(),
                source@ == all.skip(all.len() - source@.len()),
                self.allocations@.len() == kept(
                    all.take(all.len() - source@.len()),
                    keep_p,
                ).len(),
                forall|i: int|
                    0 <= i < self.allocations@.len() ==> pruned_rel(
                        kept(all.take(all.len() - source@.len()), keep_p)[i],
                        #[trigger] self.allocations@[i],
                        now,
                    ),
                self.pending@ == pre.pending@ + kept(
                    all.take(all.len() - source@.len()),
                    drop_p,
                ).map_values(|a: Allocation| free_command(a)),
                self.emitted@ == pre.emitted@ + kept(
                    all.take(all.len() - source@.len()),
                    drop_p,
                ).map_values(|a: Allocation| free_command(a)),
                pending_matches(self.emitted@, self.pending@),
                history_ok(
                    self.emitted@,
                    self.allocations@ + source@,
                    self.next_allocation_id,
                ),
                forall|i: int, j: int|
                    0 <= i < j < (self.allocations@ + source@).len() ==> !((self.allocations@
                        + source@)[i].id == (self.allocations@ + source@)[j].id && (
                    self.allocations@ + source@)[i].family == (self.allocations@
                        + source@)[j].family),
                forall|i: int, j: int|
                    0 <= i < j < (self.allocations@ + source@).len() ==> !((self.allocations@
                        + source@)[i].relay_port == (self.allocations@ + source@)[j].relay_port
                        && (self.allocations@ + source@)[i].family == (self.allocations@
                        + source@)[j].family),
                forall|i: int|
                    0 <= i < (self.allocations@ + source@).len() ==> pre.allocation_entry_ok(
                        #[trigger] (self.allocations@ + source@)[i],
                    ),
                self.public_addr == pre.public_addr,
                self.lowest_port == pre.lowest_port,
                self.highest_port == pre.highest_port,
                self.auth_secret@ == pre.auth_secret@,
                self.rng == pre.rng,
                self.next_allocation_id == pre.next_allocation_id,
                self.announced_deadline == pre.announced_deadline,
                self.sends_dropped == pre.sends_dropped,
                self.relays_dropped == pre.relays_dropped,
            decreases source@.len(),
        {
            let ghost done = all.len() - source@.len();
            let ghost src0 = source@;
            let ghost kept_before = self.allocations@;
            let ghost combined_pre = self.allocations@ + source@;
            let mut a = source.remove(0);
            proof {
                assert(all.take(done + 1) =~= all.take(done).push(a));
                lemma_kept_push(all.take(done), keep_p, a);
                lemma_kept_push(all.take(done), drop_p, a);
                assert(source@ =~= all.skip(all.len() - source@.len()));
                assert(src0 =~= seq![a] + source@);
            }
            if a.expiry <= now {
                let ghost e0 = self.emitted@;
                self.enqueue(Command::FreeAllocation { id: a.id, family: a.family });
                proof {
                    assert(kept(all.take(done + 1), drop_p) =~= kept(all.take(done), drop_p).push(
                        a,
                    ));
                    assert(kept(all.take(done + 1), drop_p).map_values(
                        |x: Allocation| free_command(x),
                    ) =~= kept(all.take(done), drop_p).map_values(
                        |x: Allocation| free_command(x),
                    ).push(free_command(a)));
                    assert(self.pending@ =~= pre.pending@ + kept(
                        all.take(done + 1),
                        drop_p,
                    ).map_values(|x: Allocation| free_command(x)));
                    assert(self.emitted@ =~= pre.emitted@ + kept(
                        all.take(done + 1),
                        drop_p,
                    ).map_values(|x: Allocation| free_command(x)));
                    assert(kept(all.take(done + 1), keep_p) =~= kept(all.take(done), keep_p));
                    let combined_post = self.allocations@ + source@;
                    assert(combined_pre =~= kept_before + (seq![a] + source@));
                    assert forall|i: int|
                        0 <= i < combined_post.len() implies combined_post[i] == (
                    if i < kept_before.len() {
                        combined_pre[i]
                    } else {
                        combined_pre[i + 1]
                    }) by {}
                    // a freed pair leaves the table: the already-pruned
                    // prefix only holds keys distinct from `a`'s, by the
                    // pairwise distinctness of the old combined table
                    assert(!has_allocation_entry(combined_post, a.id, a.family)) by {
                        if has_allocation_entry(combined_post, a.id, a.family) {
                            let w = choose|w: int|
                                0 <= w < combined_post.len() && (#[trigger] combined_post[w]).id
                                    == a.id && combined_post[w].family == a.family;
                            assert(combined_pre[kept_before.len() as int] == a);
                            if w < kept_before.len() {
                                assert(combined_pre[w] == combined_post[w]);
                            } else {
                                assert(combined_pre[w + 1] == combined_post[w]);
                            }
                        }
                    }
                    Server::lemma_counts_after_push(e0, free_command(a));
                    assert forall|id2: AllocationId, f2: AddressFamily|
                        {
                            &&& #[trigger] creates_for(self.emitted@, id2, f2) <= 1
                            &&& frees_for(self.emitted@, id2, f2) <= creates_for(
                                self.emitted@,
                                id2,
                                f2,
                            )
                            &&& (has_allocation_entry(combined_post, id2, f2) <==> (creates_for(
                                self.emitted@,
                                id2,
                                f2,
                            ) == 1 && frees_for(self.emitted@, id2, f2) == 0))
                            &&& (id2.0 >= self.next_allocation_id ==> creates_for(
                                self.emitted@,
                                id2,
                                f2,
                            ) == 0)
                        } by {
                        assert(creates_for(e0, id2, f2) <= 1);
                        if id2 == a.id && f2 == a.family {
                            assert(has_allocation_entry(combined_pre, a.id, a.family)) by {
                                assert(combined_pre[kept_before.len() as int] == a);
                            }
                            assert(creates_for(e0, id2, f2) == 1 && frees_for(e0, id2, f2)
                                == 0);
                        } else {
                            assert(has_allocation_entry(combined_post, id2, f2)
                                <==> has_allocation_entry(combined_pre, id2, f2)) by {
                                if has_allocation_entry(combined_post, id2, f2) {
                                    let w = choose|w: int|
                                        0 <= w < combined_post.len() && (
                                        #[trigger] combined_post[w]).id == id2
                                            && combined_post[w].family == f2;
                                    if w < kept_before.len() {
                                        assert(combined_pre[w] == combined_post[w]);
                                    } else {
                                        assert(combined_pre[w + 1] == combined_post[w]);
                                    }
                                }
                                if has_allocation_entry(combined_pre, id2, f2) {
                                    let w = choose|w: int|
                                        0 <= w < combined_pre.len() && (
                                        #[trigger] combined_pre[w]).id == id2
                                            && combined_pre[w].family == f2;
                                    if w < kept_before.len() {
                                        assert(combined_post[w] == combined_pre[w]);
                                    } else if w == kept_before.len() {
                                        assert(combined_pre[w] == a);
                                    } else {
                                        assert(combined_post[w - 1] == combined_pre[w]);
                                    }
                                }
                            }
                        }
                    }
                    assert forall|i: int, j: int|
                        0 <= i < j < combined_post.len() implies !(combined_post[i].id
                        == combined_post[j].id && combined_post[i].family
                        == combined_post[j].family) by {
                        let i2: int = if i < kept_before.len() {
                            i
                        } else {
                            i + 1
                        };
                        let j2: int = if j < kept_before.len() {
                            j
                        } else {
                            j + 1
                        };
                        assert(combined_post[i] == combined_pre[i2]);
                        assert(combined_post[j] == combined_pre[j2]);
                    }
                    assert forall|i: int, j: int|
                        0 <= i < j < combined_post.len() implies !(combined_post[i].relay_port
                        == combined_post[j].relay_port && combined_post[i].family
                        == combined_post[j].family) by {
                        let i2: int = if i < kept_before.len() {
                            i
                        } else {
                            i + 1
                        };
                        let j2: int = if j < kept_before.len() {
                            j
                        } else {
                            j + 1
                        };
                        assert(combined_post[i] == combined_pre[i2]);
                        assert(combined_post[j] == combined_pre[j2]);
                    }
                    assert forall|i: int|
                        0 <= i < combined_post.len() implies pre.allocation_entry_ok(
                        #[trigger] combined_post[i],
                    ) by {
                        let i2: int = if i < kept_before.len() {
                            i
                        } else {
                            i + 1
                        };
                        assert(combined_post[i] == combined_pre[i2]);
                    }
                }
            } else {
                let ghost a0 = a;
                a.prune(now);
                self.allocations.push(a);
                proof {
                    assert(kept(all.take(done + 1), keep_p) =~= kept(
                        all.take(done),
                        keep_p,
                    ).push(a0));
                    assert(kept(all.take(done + 1), drop_p) =~= kept(all.take(done), drop_p));
                    assert(kept(all.take(done + 1), drop_p).map_values(
                        |x: Allocation| free_command(x),
                    ) =~= kept(all.take(done), drop_p).map_values(
                        |x: Allocation| free_command(x),
                    ));
                    let combined_post = self.allocations@ + source@;
                    assert(combined_pre =~= kept_before + (seq![a0] + source@));
                    assert forall|i: int|
                        0 <= i < combined_post.len() implies combined_post[i] == (
                    if i == kept_before.len() {
                        combined_post[i]
                    } else {
                        combined_pre[i]
                    }) && combined_post[i].id == combined_pre[i].id && combined_post[i].family
                        == combined_pre[i].family && combined_post[i].relay_port
                        == combined_pre[i].relay_port by {}
                    assert forall|id2: AllocationId, f2: AddressFamily|
                        has_allocation_entry(combined_post, id2, f2) == has_allocation_entry(
                        combined_pre,
                        id2,
                        f2,
                    ) by {
                        if has_allocation_entry(combined_post, id2, f2) {
                            let w = choose|w: int|
                                0 <= w < combined_post.len() && (#[trigger] combined_post[w]).id
                                    == id2 && combined_post[w].family == f2;
                            assert(combined_pre[w].id == id2 && combined_pre[w].family == f2);
                        }
                        if has_allocation_entry(combined_pre, id2, f2) {
                            let w = choose|w: int|
                                0 <= w < combined_pre.len() && (#[trigger] combined_pre[w]).id
                                    == id2 && combined_pre[w].family == f2;
                            assert(combined_post[w].id == id2 && combined_post[w].family == f2);
                        }
                    }
                    assert forall|i: int|
                        0 <= i < combined_post.len() implies pre.allocation_entry_ok(
                        #[trigger] combined_post[i],
                    ) by {
                        if i == kept_before.len() {
                            assert(pre.allocation_entry_ok(a0));
                        }
                    }
                }
            }
        }
        proof {
            assert(all.take(all.len() as int) =~= all);
            assert(self.allocations@ + source@ =~= self.allocations@);
        }
        self.update_deadline();
        self.announced_deadline = None;
    }
}

/// The realm this relay announces in authentication challenges.
pub open spec fn relay_realm() -> Seq<u8> {
    seq![102u8, 105u8, 114u8, 101u8, 122u8, 111u8, 110u8, 101u8]
}

/// The realm as bytes: `firezone`.
pub fn realm_bytes() -> (r: Vec<u8>)
    ensures
        r@ == relay_realm(),
{
    let mut v: Vec<u8> = Vec::new();
    v.push(102);
    v.push(105);
    v.push(114);
    v.push(101);
    v.push(122);
    v.push(111);
    v.push(110);
    v.push(101);
    proof {
        assert(v@ =~= relay_realm());
    }
    v
}

/// The lifetime granted for a requested one: the default when absent,
/// never more than the cap.
pub open spec fn granted_lifetime(requested: Option<u32>) -> u64 {
    let l = match requested {
        Option::None => DEFAULT_ALLOCATION_LIFETIME,
        Option::Some(l) => l as u64,
    };
    min64(l, MAX_ALLOCATION_LIFETIME)
}

/// The request's credentials authenticate it against this server's secret.
pub open spec fn auth_passes(s: Server, credentials: Option<Credentials>, now: u64) -> bool {
    match credentials {
        Option::Some(c) => credentials_valid(s.auth_secret@, c, now),
        Option::None => false,
    }
}

/// The request was answered with a bare error response carrying `code`.
pub open spec fn rejected(
    pre: Server,
    post: Server,
    tid: TransactionId,
    code: u16,
    sender: SocketAddr,
) -> bool {
    &&& Server::same_config(pre, post)
    &&& Server::same_allocations(pre, post)
    &&& post.sends_dropped == pre.sends_dropped
    &&& post.relays_dropped == pre.relays_dropped
    &&& post.pending@ == pre.pending@ + seq![
        send_to(
            Message::ErrorResponse { tid, code, realm: Option::None, nonce: Option::None },
            sender,
        ),
    ]
    &&& post.emitted@ == pre.emitted@ + seq![
        send_to(
            Message::ErrorResponse { tid, code, realm: Option::None, nonce: Option::None },
            sender,
        ),
    ]
}

/// The request was answered `401` with a fresh realm and nonce.
pub open spec fn challenged(
    pre: Server,
    post: Server,
    tid: TransactionId,
    sender: SocketAddr,
) -> bool {
    &&& Server::same_config(pre, post)
    &&& Server::same_allocations(pre, post)
    &&& post.sends_dropped == pre.sends_dropped
    &&& post.relays_dropped == pre.relays_dropped
    &&& exists|rv: Vec<u8>, n: u64|
        rv@ == relay_realm() && post.pending@ == pre.pending@ + seq![
            send_to(
                (Message::ErrorResponse {
                    tid,
                    code: UNAUTHORIZED,
                    realm: Option::Some(rv),
                    nonce: Option::Some(n),
                }),
                sender,
            ),
        ] && post.emitted@ == pre.emitted@ + seq![
            send_to(
                (Message::ErrorResponse {
                    tid,
                    code: UNAUTHORIZED,
                    realm: Option::Some(rv),
                    nonce: Option::Some(n),
                }),
                sender,
            ),
        ]
}

/// Nothing was emitted; the drop was counted against `sends_dropped`.
pub open spec fn silently_dropped(pre: Server, post: Server) -> bool {
    &&& Server::same_config(pre, post)
    &&& Server::same_allocations(pre, post)
    &&& post.relays_dropped == pre.relays_dropped
    &&& post.pending@ == pre.pending@
    &&& post.emitted@ == pre.emitted@
    &&& post.sends_dropped == inc64(pre.sends_dropped)
}

/// `i` is the first table index of an allocation of `addr` for `family`.
pub open spec fn first_client_family_index(
    s: Seq<Allocation>,
    addr: SocketAddr,
    family: AddressFamily,
    i: int,
) -> bool {
    &&& 0 <= i < s.len()
    &&& s[i].client_addr == addr
    &&& s[i].family == family
    &&& forall|j: int|
        0 <= j < i ==> !((#[trigger] s[j]).client_addr == addr && s[j].family == family)
}

/// Allocation `a` can relay client data sent over channel `number`.
pub open spec fn can_channel_relay(
    a: Allocation,
    sender: SocketAddr,
    number: u16,
    now: u64,
) -> bool {
    &&& a.client_addr == sender
    &&& a.live(now)
    &&& exists|ci: int|
        0 <= ci < a.channels@.len() && (#[trigger] a.channels@[ci]).number == number
            && a.channels@[ci].expiry > now
}

/// `a` is a newly created allocation with no permissions or bindings.
pub open spec fn is_fresh_allocation(
    a: Allocation,
    id: u64,
    family: AddressFamily,
    port: u16,
    client: SocketAddr,
    expiry: u64,
) -> bool {
    &&& a.id == AllocationId(id)
    &&& a.family == family
    &&& a.relay_port == port
    &&& a.client_addr == client
    &&& a.expiry == expiry
    &&& a.channels@ == Seq::<ChannelBinding>::empty()
    &&& a.permissions@ == Seq::<Permission>::empty()
}

/// Some relay port is free for `family`.
pub open spec fn free_port_exists(s: Server, family: AddressFamily) -> bool {
    exists|p: u16|
        s.lowest_port <= p <= s.highest_port && !port_in_use(s.allocations@, p, family)
}

/// A new allocation can be granted: a port is free for every served
/// family and identifiers are not exhausted.
pub open spec fn can_allocate(s: Server) -> bool {
    &&& s.next_allocation_id < u64::MAX
    &&& (s.public_addr.spec_as_v4() is Some ==> free_port_exists(s, AddressFamily::V4))
    &&& (s.public_addr.spec_as_v6() is Some ==> free_port_exists(s, AddressFamily::V6))
}

/// The state and command changes of a granted ALLOCATE: one fresh
/// allocation per served family, announced with `CreateAllocation` before
/// the success response that carries the relayed addresses.
pub open spec fn allocate_success(
    pre: Server,
    post: Server,
    tid: TransactionId,
    sender: SocketAddr,
    now: u64,
    granted: u64,
) -> bool {
    let e = (now + granted) as u64;
    let id = pre.next_allocation_id;
    &&& Server::same_config(pre, post)
    &&& post.next_allocation_id == pre.next_allocation_id + 1
    &&& post.announced_deadline == pre.announced_deadline
    &&& post.sends_dropped == pre.sends_dropped
    &&& post.relays_dropped == pre.relays_dropped
    &&& match pre.public_addr {
        IpStack::Ip4(ip4) => exists|p: u16, a: Allocation|
            #![trigger port_in_use(pre.allocations@, p, AddressFamily::V4), a.id]
            {
                &&& pre.lowest_port <= p <= pre.highest_port
                &&& !port_in_use(pre.allocations@, p, AddressFamily::V4)
                &&& is_fresh_allocation(a, id, AddressFamily::V4, p, sender, e)
                &&& post.allocations@ == pre.allocations@.push(a)
                &&& post.pending@ == pre.pending@ + seq![
                    (Command::CreateAllocation {
                        id: AllocationId(id),
                        family: AddressFamily::V4,
                        port: p,
                    }),
                    send_to(
                        (Message::AllocateSuccess {
                            tid,
                            relayed_v4: Option::Some(
                                (SocketAddr { ip: IpAddr::V4(ip4), port: p }),
                            ),
                            relayed_v6: Option::None,
                            lifetime: granted as u32,
                        }),
                        sender,
                    ),
                ]
                &&& post.emitted@ == pre.emitted@ + seq![
                    (Command::CreateAllocation {
                        id: AllocationId(id),
                        family: AddressFamily::V4,
                        port: p,
                    }),
                    send_to(
                        (Message::AllocateSuccess {
                            tid,
                            relayed_v4: Option::Some(
                                (SocketAddr { ip: IpAddr::V4(ip4), port: p }),
                            ),
                            relayed_v6: Option::None,
                            lifetime: granted as u32,
                        }),
                        sender,
                    ),
                ]
            },
        IpStack::Ip6(ip6) => exists|p: u16, a: Allocation|
            #![trigger port_in_use(pre.allocations@, p, AddressFamily::V6), a.id]
            {
                &&& pre.lowest_port <= p <= pre.highest_port
                &&& !port_in_use(pre.allocations@, p, AddressFamily::V6)
                &&& is_fresh_allocation(a, id, AddressFamily::V6, p, sender, e)
                &&& post.allocations@ == pre.allocations@.push(a)
                &&& post.pending@ == pre.pending@ + seq![
                    (Command::CreateAllocation {
                        id: AllocationId(id),
                        family: AddressFamily::V6,
                        port: p,
                    }),
                    send_to(
                        (Message::AllocateSuccess {
                            tid,
                            relayed_v4: Option::None,
                            relayed_v6: Option::Some(
                                (SocketAddr { ip: IpAddr::V6(ip6), port: p }),
                            ),
                            lifetime: granted as u32,
                        }),
                        sender,
                    ),
                ]
                &&& post.emitted@ == pre.emitted@ + seq![
                    (Command::CreateAllocation {
                        id: AllocationId(id),
                        family: AddressFamily::V6,
                        port: p,
                    }),
                    send_to(
                        (Message::AllocateSuccess {
                            tid,
                            relayed_v4: Option::None,
                            relayed_v6: Option::Some(
                                (SocketAddr { ip: IpAddr::V6(ip6), port: p }),
                            ),
                            lifetime: granted as u32,
                        }),
                        sender,
                    ),
                ]
            },
        IpStack::Dual { ip4, ip6 } => exists|p4: u16, p6: u16, a4: Allocation, a6: Allocation|
            #![trigger port_in_use(pre.allocations@, p4, AddressFamily::V4), port_in_use(pre.allocations@, p6, AddressFamily::V6), a4.id, a6.id]
            {
                &&& pre.lowest_port <= p4 <= pre.highest_port
                &&& !port_in_use(pre.allocations@, p4, AddressFamily::V4)
                &&& pre.lowest_port <= p6 <= pre.highest_port
                &&& !port_in_use(pre.allocations@, p6, AddressFamily::V6)
                &&& is_fresh_allocation(a4, id, AddressFamily::V4, p4, sender, e)
                &&& is_fresh_allocation(a6, id, AddressFamily::V6, p6, sender, e)
                &&& post.allocations@ == pre.allocations@.push(a4).push(a6)
                &&& post.pending@ == pre.pending@ + seq![
                    (Command::CreateAllocation {
                        id: AllocationId(id),
                        family: AddressFamily::V4,
                        port: p4,
                    }),
                    (Command::CreateAllocation {
                        id: AllocationId(id),
                        family: AddressFamily::V6,
                        port: p6,
                    }),
                    send_to(
                        (Message::AllocateSuccess {
                            tid,
                            relayed_v4: Option::Some(
                                (SocketAddr { ip: IpAddr::V4(ip4), port: p4 }),
                            ),
                            relayed_v6: Option::Some(
                                (SocketAddr { ip: IpAddr::V6(ip6), port: p6 }),
                            ),
                            lifetime: granted as u32,
                        }),
                        sender,
                    ),
                ]
                &&& post.emitted@ == pre.emitted@ + seq![
                    (Command::CreateAllocation {
                        id: AllocationId(id),
                        family: AddressFamily::V4,
                        port: p4,
                    }),
                    (Command::CreateAllocation {
                        id: AllocationId(id),
                        family: AddressFamily::V6,
                        port: p6,
                    }),
                    send_to(
                        (Message::AllocateSuccess {
                            tid,
                            relayed_v4: Option::Some(
                                (SocketAddr { ip: IpAddr::V4(ip4), port: p4 }),
                            ),
                            relayed_v6: Option::Some(
                                (SocketAddr { ip: IpAddr::V6(ip6), port: p6 }),
                            ),
                            lifetime: granted as u32,
                        }),
                        sender,
                    ),
                ]
            },
    }
}

/// What an ALLOCATE request does.
pub open spec fn allocate_step(
    pre: Server,
    post: Server,
    tid: TransactionId,
    credentials: Option<Credentials>,
    requested_transport: u8,
    lifetime: Option<u32>,
    sender: SocketAddr,
    now: u64,
) -> bool {
    if !auth_passes(pre, credentials, now) {
        challenged(pre, post, tid, sender)
    } else if requested_transport != UDP_TRANSPORT {
        rejected(pre, post, tid, UNSUPPORTED_TRANSPORT_PROTOCOL, sender)
    } else if has_client_allocation(pre.allocations@, sender) {
        rejected(pre, post, tid, ALLOCATION_MISMATCH, sender)
    } else if !can_allocate(pre) {
        rejected(pre, post, tid, INSUFFICIENT_CAPACITY, sender)
    } else {
        allocate_success(pre, post, tid, sender, now, granted_lifetime(lifetime))
    }
}

/// What a Binding request does: a success response carrying the sender's
/// reflexive address, nothing else.
pub open spec fn binding_step(
    pre: Server,
    post: Server,
    tid: TransactionId,
    sender: SocketAddr,
) -> bool {
    &&& Server::same_config(pre, post)
    &&& Server::same_allocations(pre, post)
    &&& post.sends_dropped == pre.sends_dropped
    &&& post.relays_dropped == pre.relays_dropped
    &&& post.pending@ == pre.pending@ + seq![
        send_to(Message::BindingSuccess { tid, mapped: sender }, sender),
    ]
    &&& post.emitted@ == pre.emitted@ + seq![
        send_to(Message::BindingSuccess { tid, mapped: sender }, sender),
    ]
}

/// What a `Send` indication does.
pub open spec fn send_step(
    pre: Server,
    post: Server,
    peer: SocketAddr,
    data: Vec<u8>,
    sender: SocketAddr,
    now: u64,
) -> bool {
    &&& Server::same_config(pre, post)
    &&& Server::same_allocations(pre, post)
    &&& post.relays_dropped == pre.relays_dropped
    &&& ({
        let s = pre.allocations@;
        if spec_has_client_family(s, sender, peer.spec_family()) {
            exists|i: int|
                #![trigger s[i]]
                first_client_family_index(s, sender, peer.spec_family(), i) && (if s[i].live(now)
                    && s[i].permitted(peer.ip, now) {
                    &&& post.pending@ == pre.pending@ + seq![
                        (Command::ForwardData { id: s[i].id, data, receiver: peer }),
                    ]
                    &&& post.emitted@ == pre.emitted@ + seq![
                        (Command::ForwardData { id: s[i].id, data, receiver: peer }),
                    ]
                    &&& post.sends_dropped == pre.sends_dropped
                } else {
                    silently_dropped(pre, post)
                })
        } else {
            silently_dropped(pre, post)
        }
    })
}

/// What a `ChannelData` message does.
pub open spec fn channel_data_step(
    pre: Server,
    post: Server,
    channel: u16,
    data: Vec<u8>,
    sender: SocketAddr,
    now: u64,
) -> bool {
    &&& Server::same_config(pre, post)
    &&& Server::same_allocations(pre, post)
    &&& post.relays_dropped == pre.relays_dropped
    &&& ({
        let s = pre.allocations@;
        if exists|i: int|
            0 <= i < s.len() && can_channel_relay(#[trigger] s[i], sender, channel, now) {
            exists|i: int, ci: int|
                #![trigger s[i].channels@[ci]]
                {
                    &&& 0 <= i < s.len()
                    &&& can_channel_relay(s[i], sender, channel, now)
                    &&& forall|j: int|
                        0 <= j < i ==> !can_channel_relay(#[trigger] s[j], sender, channel, now)
                    &&& 0 <= ci < s[i].channels@.len()
                    &&& s[i].channels@[ci].number == channel
                    &&& post.pending@ == pre.pending@ + seq![
                        (Command::ForwardData {
                            id: s[i].id,
                            data,
                            receiver: s[i].channels@[ci].peer,
                        }),
                    ]
                    &&& post.emitted@ == pre.emitted@ + seq![
                        (Command::ForwardData {
                            id: s[i].id,
                            data,
                            receiver: s[i].channels@[ci].peer,
                        }),
                    ]
                    &&& post.sends_dropped == pre.sends_dropped
                }
        } else {
            silently_dropped(pre, post)
        }
    })
}

/// What one parsed client datagram does to the server, by method.
pub open spec fn client_step(
    pre: Server,
    post: Server,
    message: ClientMessage,
    sender: SocketAddr,
    now: u64,
) -> bool {
    match message {
        ClientMessage::Binding { tid } => binding_step(pre, post, tid, sender),
        ClientMessage::Allocate { tid, credentials, requested_transport, lifetime } =>
            allocate_step(
            pre,
            post,
            tid,
            credentials,
            requested_transport,
            lifetime,
            sender,
            now,
        ),
        ClientMessage::Refresh { tid, credentials, lifetime } => refresh_step(
            pre,
            post,
            tid,
            credentials,
            lifetime,
            sender,
            now,
        ),
        ClientMessage::CreatePermission { tid, credentials, peer } => create_permission_step(
            pre,
            post,
            tid,
            credentials,
            peer,
            sender,
            now,
        ),
        ClientMessage::ChannelBind { tid, credentials, channel, peer } => channel_bind_step(
            pre,
            post,
            tid,
            credentials,
            channel,
            peer,
            sender,
            now,
        ),
        ClientMessage::SendIndication { peer, data } => send_step(
            pre,
            post,
            peer,
            data,
            sender,
            now,
        ),
        ClientMessage::ChannelData { channel, data } => channel_data_step(
            pre,
            post,
            channel,
            data,
            sender,
            now,
        ),
    }
}

/// `b` is `a` with its expiry set to `e` and nothing else changed.
pub open spec fn expiry_set_rel(a: Allocation, b: Allocation, e: u64) -> bool {
    &&& b.id == a.id
    &&& b.family == a.family
    &&& b.relay_port == a.relay_port
    &&& b.client_addr == a.client_addr
    &&& b.expiry == e
    &&& b.channels@ == a.channels@
    &&& b.permissions@ == a.permissions@
}

/// Binding `number` to `peer` would clash with an existing binding.
pub open spec fn channel_conflict(a: Allocation, number: u16, peer: SocketAddr) -> bool {
    ||| exists|ci: int|
        0 <= ci < a.channels@.len() && (#[trigger] a.channels@[ci]).number == number
            && a.channels@[ci].peer != peer
    ||| exists|ci: int|
        0 <= ci < a.channels@.len() && (#[trigger] a.channels@[ci]).peer == peer
            && a.channels@[ci].number != number
}

/// What a REFRESH request does.
pub open spec fn refresh_step(
    pre: Server,
    post: Server,
    tid: TransactionId,
    credentials: Option<Credentials>,
    lifetime: Option<u32>,
    sender: SocketAddr,
    now: u64,
) -> bool {
    if !auth_passes(pre, credentials, now) {
        challenged(pre, post, tid, sender)
    } else if !has_client_allocation(pre.allocations@, sender) {
        rejected(pre, post, tid, ALLOCATION_MISMATCH, sender)
    } else if lifetime == Option::Some(0u32) {
        // lifetime zero deletes: free every allocation of the client
        &&& Server::same_config(pre, post)
        &&& post.next_allocation_id == pre.next_allocation_id
        &&& post.announced_deadline == pre.announced_deadline
        &&& post.sends_dropped == pre.sends_dropped
        &&& post.relays_dropped == pre.relays_dropped
        &&& post.allocations@ == kept(
            pre.allocations@,
            |a: Allocation| a.client_addr != sender,
        )
        &&& post.pending@ == pre.pending@ + kept(
            pre.allocations@,
            |a: Allocation| a.client_addr == sender,
        ).map_values(|a: Allocation| free_command(a)) + seq![
            send_to(Message::RefreshSuccess { tid, lifetime: 0 }, sender),
        ]
        &&& post.emitted@ == pre.emitted@ + kept(
            pre.allocations@,
            |a: Allocation| a.client_addr == sender,
        ).map_values(|a: Allocation| free_command(a)) + seq![
            send_to(Message::RefreshSuccess { tid, lifetime: 0 }, sender),
        ]
    } else {
        // every allocation of the client gets the granted lifetime
        let granted = granted_lifetime(lifetime);
        let e = (now + granted) as u64;
        &&& Server::same_config(pre, post)
        &&& post.next_allocation_id == pre.next_allocation_id
        &&& post.announced_deadline == pre.announced_deadline
        &&& post.sends_dropped == pre.sends_dropped
        &&& post.relays_dropped == pre.relays_dropped
        &&& post.allocations@.len() == pre.allocations@.len()
        &&& forall|i: int|
            0 <= i < pre.allocations@.len() ==> if (#[trigger] pre.allocations@[i]).client_addr
                == sender {
                expiry_set_rel(pre.allocations@[i], post.allocations@[i], e)
            } else {
                post.allocations@[i] == pre.allocations@[i]
            }
        &&& post.pending@ == pre.pending@ + seq![
            send_to((Message::RefreshSuccess { tid, lifetime: granted as u32 }), sender),
        ]
        &&& post.emitted@ == pre.emitted@ + seq![
            send_to((Message::RefreshSuccess { tid, lifetime: granted as u32 }), sender),
        ]
    }
}

/// What a CREATE-PERMISSION request does.
pub open spec fn create_permission_step(
    pre: Server,
    post: Server,
    tid: TransactionId,
    credentials: Option<Credentials>,
    peer: SocketAddr,
    sender: SocketAddr,
    now: u64,
) -> bool {
    if !auth_passes(pre, credentials, now) {
        challenged(pre, post, tid, sender)
    } else if spec_has_client_family(pre.allocations@, sender, peer.spec_family()) {
        exists|i: int|
            #![trigger pre.allocations@[i]]
            {
                &&& first_client_family_index(pre.allocations@, sender, peer.spec_family(), i)
                &&& Server::same_config(pre, post)
                &&& post.next_allocation_id == pre.next_allocation_id
                &&& post.announced_deadline == pre.announced_deadline
                &&& post.sends_dropped == pre.sends_dropped
                &&& post.relays_dropped == pre.relays_dropped
                &&& post.allocations@.len() == pre.allocations@.len()
                &&& granted_rel(
                    pre.allocations@[i],
                    post.allocations@[i],
                    peer.ip,
                    (now + PERMISSION_LIFETIME) as u64,
                )
                &&& forall|j: int|
                    0 <= j < pre.allocations@.len() && j != i
                        ==> post.allocations@[j] == pre.allocations@[j]
                &&& post.pending@ == pre.pending@ + seq![
                    send_to(Message::CreatePermissionSuccess { tid }, sender),
                ]
                &&& post.emitted@ == pre.emitted@ + seq![
                    send_to(Message::CreatePermissionSuccess { tid }, sender),
                ]
            }
    } else if has_client_allocation(pre.allocations@, sender) {
        rejected(pre, post, tid, PEER_ADDRESS_FAMILY_MISMATCH, sender)
    } else {
        rejected(pre, post, tid, ALLOCATION_MISMATCH, sender)
    }
}

/// What a CHANNEL-BIND request does.
pub open spec fn channel_bind_step(
    pre: Server,
    post: Server,
    tid: TransactionId,
    credentials: Option<Credentials>,
    number: u16,
    peer: SocketAddr,
    sender: SocketAddr,
    now: u64,
) -> bool {
    if !auth_passes(pre, credentials, now) {
        challenged(pre, post, tid, sender)
    } else if number < FIRST_CHANNEL_NUMBER || number > LAST_CHANNEL_NUMBER {
        rejected(pre, post, tid, BAD_REQUEST, sender)
    } else if spec_has_client_family(pre.allocations@, sender, peer.spec_family()) {
        exists|i: int|
            #![trigger pre.allocations@[i]]
            {
                &&& first_client_family_index(pre.allocations@, sender, peer.spec_family(), i)
                &&& if channel_conflict(pre.allocations@[i], number, peer) {
                    rejected(pre, post, tid, BAD_REQUEST, sender)
                } else {
                    &&& Server::same_config(pre, post)
                    &&& post.next_allocation_id == pre.next_allocation_id
                    &&& post.announced_deadline == pre.announced_deadline
                    &&& post.sends_dropped == pre.sends_dropped
                    &&& post.relays_dropped == pre.relays_dropped
                    &&& post.allocations@.len() == pre.allocations@.len()
                    &&& bound_rel(pre.allocations@[i], post.allocations@[i], number, peer, now)
                    &&& forall|j: int|
                        0 <= j < pre.allocations@.len() && j != i
                            ==> post.allocations@[j] == pre.allocations@[j]
                    &&& post.pending@ == pre.pending@ + seq![
                        send_to(Message::ChannelBindSuccess { tid }, sender),
                    ]
                    &&& post.emitted@ == pre.emitted@ + seq![
                        send_to(Message::ChannelBindSuccess { tid }, sender),
                    ]
                }
            }
    } else if has_client_allocation(pre.allocations@, sender) {
        rejected(pre, post, tid, PEER_ADDRESS_FAMILY_MISMATCH, sender)
    } else {
        rejected(pre, post, tid, ALLOCATION_MISMATCH, sender)
    }
}

/// `b` is `a` with every channel binding and permission expired at `now`
/// dropped, and nothing else changed.
pub open spec fn pruned_rel(a: Allocation, b: Allocation, now: u64) -> bool {
    &&& b.id == a.id
    &&& b.family == a.family
    &&& b.relay_port == a.relay_port
    &&& b.client_addr == a.client_addr
    &&& b.expiry == a.expiry
    &&& b.channels@ == kept(a.channels@, |c: ChannelBinding| c.expiry > now)
    &&& b.permissions@ == kept(a.permissions@, |p: Permission| p.expiry > now)
}

/// What `handle_relay_input` does once the allocation at index `i` is
/// identified: channel data over a binding, a `Data` indication under a
/// bare permission, or a counted drop.
pub open spec fn relay_outcome_at(
    pre: Server,
    post: Server,
    data: Vec<u8>,
    sender: SocketAddr,
    i: int,
) -> bool {
    let a = pre.allocations@[i];
    if a.has_channel_peer(sender) {
        exists|ci: int|
            0 <= ci < a.channels@.len() && (#[trigger] a.channels@[ci]).peer == sender
                && post.pending@ == pre.pending@ + seq![
                send_to(
                    Message::ChannelDataMessage { channel: a.channels@[ci].number, data },
                    a.client_addr,
                ),
            ] && post.emitted@ == pre.emitted@ + seq![
                send_to(
                    Message::ChannelDataMessage { channel: a.channels@[ci].number, data },
                    a.client_addr,
                ),
            ] && post.relays_dropped == pre.relays_dropped
    } else if a.has_permission_entry(sender.ip) {
        &&& post.pending@ == pre.pending@ + seq![
            send_to(Message::DataIndication { peer: sender, data }, a.client_addr),
        ]
        &&& post.emitted@ == pre.emitted@ + seq![
            send_to(Message::DataIndication { peer: sender, data }, a.client_addr),
        ]
        &&& post.relays_dropped == pre.relays_dropped
    } else {
        &&& post.pending@ == pre.pending@
        &&& post.emitted@ == pre.emitted@
        &&& post.relays_dropped == inc64(pre.relays_dropped)
    }
}

/// The saturating increment used for the metric counters.
fn saturating_inc(x: u64) -> (r: u64)
    ensures
        r == inc64(x),
{
    if x < u64::MAX {
        x + 1
    } else {
        x
    }
}

impl Server {
    /// Answer `tid` with a bare error response.
    fn reject(&mut self, tid: TransactionId, code: u16, sender: SocketAddr)
        requires
            old(self).wf(),
        ensures
            final(self).wf(),
            rejected(*old(self), *final(self), tid, code, sender),
    {
        let ghost pre = *self;
        let msg = Message::ErrorResponse { tid, code, realm: None, nonce: None };
        self.enqueue(Command::SendMessage { payload: msg, recipient: sender });
        proof {
            assert(self.pending@ =~= pre.pending@ + seq![
                send_to(
                    Message::ErrorResponse { tid, code, realm: Option::None, nonce: Option::None },
                    sender,
                ),
            ]);
            assert(self.emitted@ =~= pre.emitted@ + seq![
                send_to(
                    Message::ErrorResponse { tid, code, realm: Option::None, nonce: Option::None },
                    sender,
                ),
            ]);
            Server::lemma_history_after_benign_push(
                pre.emitted@,
                pre.allocations@,
                pre.next_allocation_id,
                self.emitted@.last(),
            );
        }
    }

    /// Answer `tid` with `401`, a fresh realm and a fresh nonce.
    fn challenge(&mut self, tid: TransactionId, sender: SocketAddr)
        requires
            old(self).wf(),
        ensures
            final(self).wf(),
            challenged(*old(self), *final(self), tid, sender),
    {
        let ghost pre = *self;
        let nonce = next_u64(&mut self.rng);
        let realm = realm_bytes();
        let ghost rv = realm;
        let msg = Message::ErrorResponse {
            tid,
            code: UNAUTHORIZED,
            realm: Some(realm),
            nonce: Some(nonce),
        };
        self.enqueue(Command::SendMessage { payload: msg, recipient: sender });
        proof {
            assert(self.pending@ =~= pre.pending@ + seq![
                send_to(
                    (Message::ErrorResponse {
                        tid,
                        code: UNAUTHORIZED,
                        realm: Option::Some(rv),
                        nonce: Option::Some(nonce),
                    }),
                    sender,
                ),
            ]);
            assert(self.emitted@ =~= pre.emitted@ + seq![
                send_to(
                    (Message::ErrorResponse {
                        tid,
                        code: UNAUTHORIZED,
                        realm: Option::Some(rv),
                        nonce: Option::Some(nonce),
                    }),
                    sender,
                ),
            ]);
            Server::lemma_history_after_benign_push(
                pre.emitted@,
                pre.allocations@,
                pre.next_allocation_id,
                self.emitted@.last(),
            );
        }
    }

    /// Whether the request's credentials authenticate it.
    fn check_auth(&self, credentials: &Option<Credentials>, now: u64) -> (r: bool)
        ensures
            r == auth_passes(*self, *credentials, now),
    {
        match credentials {
            Some(c) => authenticate(&self.auth_secret, c, now).is_ok(),
            None => false,
        }
    }

    /// Answer a Binding request: echo the sender's reflexive address.
    fn handle_binding(&mut self, tid: TransactionId, sender: SocketAddr)
        requires
            old(self).wf(),
        ensures
            final(self).wf(),
            Server::same_config(*old(self), *final(self)),
            Server::same_allocations(*old(self), *final(self)),
            final(self).sends_dropped == old(self).sends_dropped,
            final(self).relays_dropped == old(self).relays_dropped,
            final(self).pending@ == old(self).pending@ + seq![
                send_to(Message::BindingSuccess { tid, mapped: sender }, sender),
            ],
            final(self).emitted@ == old(self).emitted@ + seq![
                send_to(Message::BindingSuccess { tid, mapped: sender }, sender),
            ],
    {
        let ghost pre = *self;
        let msg = Message::BindingSuccess { tid, mapped: sender };
        self.enqueue(Command::SendMessage { payload: msg, recipient: sender });
        proof {
            assert(self.pending@ =~= pre.pending@ + seq![
                send_to(Message::BindingSuccess { tid, mapped: sender }, sender),
            ]);
            assert(self.emitted@ =~= pre.emitted@ + seq![
                send_to(Message::BindingSuccess { tid, mapped: sender }, sender),
            ]);
            Server::lemma_history_after_benign_push(
                pre.emitted@,
                pre.allocations@,
                pre.next_allocation_id,
                self.emitted@.last(),
            );
        }
    }

    /// Relay a client's `Send` indication towards `peer`, if the sender
    /// holds a live allocation for the peer's family and the peer has an
    /// unexpired permission; drop it silently (and count) otherwise.
    fn handle_send_indication(&mut self, peer: SocketAddr, data: Vec<u8>, sender: SocketAddr,
        now: u64)
        requires
            old(self).wf(),
        ensures
            final(self).wf(),
            Server::same_config(*old(self), *final(self)),
            Server::same_allocations(*old(self), *final(self)),
            final(self).relays_dropped == old(self).relays_dropped,
            ({
                let s = old(self).allocations@;
                if spec_has_client_family(s, sender, peer.spec_family()) {
                    exists|i: int|
                        #![trigger s[i]]
                        first_client_family_index(s, sender, peer.spec_family(), i) && (
                        if s[i].live(now) && s[i].permitted(peer.ip, now) {
                            &&& final(self).pending@ == old(self).pending@ + seq![
                                (Command::ForwardData { id: s[i].id, data, receiver: peer }),
                            ]
                            &&& final(self).emitted@ == old(self).emitted@ + seq![
                                (Command::ForwardData { id: s[i].id, data, receiver: peer }),
                            ]
                            &&& final(self).sends_dropped == old(self).sends_dropped
                        } else {
                            silently_dropped(*old(self), *final(self))
                        })
                } else {
                    silently_dropped(*old(self), *final(self))
                }
            }),
    {
        let ghost pre = *self;
        let idx = match self.find_client_allocation(sender, peer.family()) {
            Some(i) => i,
            None => {
                self.sends_dropped = saturating_inc(self.sends_dropped);
                return;
            },
        };
        let live = self.allocations[idx].expiry > now;
        let permitted = self.allocations[idx].has_unexpired_permission(peer.ip, now);
        if live && permitted {
            let id = self.allocations[idx].id;
            self.enqueue(Command::ForwardData { id, data, receiver: peer });
            proof {
                assert(self.pending@ =~= pre.pending@ + seq![
                    (Command::ForwardData {
                        id: pre.allocations@[idx as int].id,
                        data,
                        receiver: peer,
                    }),
                ]);
                assert(self.emitted@ =~= pre.emitted@ + seq![
                    (Command::ForwardData {
                        id: pre.allocations@[idx as int].id,
                        data,
                        receiver: peer,
                    }),
                ]);
                Server::lemma_history_after_benign_push(
                    pre.emitted@,
                    pre.allocations@,
                    pre.next_allocation_id,
                    self.emitted@.last(),
                );
                assert(first_client_family_index(
                    pre.allocations@,
                    sender,
                    peer.spec_family(),
                    idx as int,
                ));
            }
        } else {
            self.sends_dropped = saturating_inc(self.sends_dropped);
            proof {
                assert(first_client_family_index(
                    pre.allocations@,
                    sender,
                    peer.spec_family(),
                    idx as int,
                ));
            }
        }
    }

    /// Relay a client's `ChannelData` message over the named channel, if
    /// some live allocation of the sender has an unexpired binding for it;
    /// drop it silently (and count) otherwise.
    fn handle_channel_data(&mut self, channel: u16, data: Vec<u8>, sender: SocketAddr,
        now: u64)
        requires
            old(self).wf(),
        ensures
            final(self).wf(),
            Server::same_config(*old(self), *final(self)),
            Server::same_allocations(*old(self), *final(self)),
            final(self).relays_dropped == old(self).relays_dropped,
            ({
                let s = old(self).allocations@;
                if exists|i: int|
                    0 <= i < s.len() && can_channel_relay(#[trigger] s[i], sender, channel, now) {
                    exists|i: int, ci: int|
                        #![trigger s[i].channels@[ci]]
                        {
                            &&& 0 <= i < s.len()
                            &&& can_channel_relay(s[i], sender, channel, now)
                            &&& forall|j: int|
                                0 <= j < i ==> !can_channel_relay(
                                    #[trigger] s[j],
                                    sender,
                                    channel,
                                    now,
                                )
                            &&& 0 <= ci < s[i].channels@.len()
                            &&& s[i].channels@[ci].number == channel
                            &&& final(self).pending@ == old(self).pending@ + seq![
                                (Command::ForwardData {
                                    id: s[i].id,
                                    data,
                                    receiver: s[i].channels@[ci].peer,
                                }),
                            ]
                            &&& final(self).emitted@ == old(self).emitted@ + seq![
                                (Command::ForwardData {
                                    id: s[i].id,
                                    data,
                                    receiver: s[i].channels@[ci].peer,
                                }),
                            ]
                            &&& final(self).sends_dropped == old(self).sends_dropped
                        }
                } else {
                    silently_dropped(*old(self), *final(self))
                }
            }),
    {
        let ghost pre = *self;
        let mut i: usize = 0;
        while i < self.allocations.len()
            invariant
                i <= self.allocations@.len(),
                *self == pre,
                pre == *old(self),
                pre.wf(),
                forall|j: int|
                    0 <= j < i ==> !can_channel_relay(
                        #[trigger] pre.allocations@[j],
                        sender,
                        channel,
                        now,
                    ),
            decreases self.allocations@.len() - i,
        {
            if self.allocations[i].client_addr == sender && self.allocations[i].expiry > now {
                match self.allocations[i].find_channel_by_number(channel) {
                    Some(ci) => {
                        if self.allocations[i].channels[ci].expiry > now {
                            let id = self.allocations[i].id;
                            let receiver = self.allocations[i].channels[ci].peer;
                            self.enqueue(Command::ForwardData { id, data, receiver });
                            proof {
                                let s = pre.allocations@;
                                assert(self.pending@ =~= pre.pending@ + seq![
                                    (Command::ForwardData {
                                        id: s[i as int].id,
                                        data,
                                        receiver: s[i as int].channels@[ci as int].peer,
                                    }),
                                ]);
                                assert(self.emitted@ =~= pre.emitted@ + seq![
                                    (Command::ForwardData {
                                        id: s[i as int].id,
                                        data,
                                        receiver: s[i as int].channels@[ci as int].peer,
                                    }),
                                ]);
                                Server::lemma_history_after_benign_push(
                                    pre.emitted@,
                                    pre.allocations@,
                                    pre.next_allocation_id,
                                    self.emitted@.last(),
                                );
                                assert(can_channel_relay(s[i as int], sender, channel, now));
                            }
                            return;
                        } else {
                            proof {
                                // the channel numbers of one allocation are
                                // distinct, so no unexpired binding for this
                                // number exists here
                                let a = pre.allocations@[i as int];
                                assert(pre.allocation_entry_ok(a));
                                assert forall|cj: int|
                                    0 <= cj < a.channels@.len() && (
                                    #[trigger] a.channels@[cj]).number
                                        == channel implies !(a.channels@[cj].expiry > now) by {
                                    if cj != ci as int {
                                        assert(a.channels@[ci as int].number == channel);
                                    }
                                }
                            }
                        }
                    },
                    None => {},
                }
            }
            i = i + 1;
        }
        self.sends_dropped = saturating_inc(self.sends_dropped);
    }

    /// Answer a REFRESH request: extend the sender's allocations, or, at
    /// lifetime zero, delete them.
    #[verifier::rlimit(80)]
    fn handle_refresh(&mut self, tid: TransactionId, credentials: Option<Credentials>,
        lifetime: Option<u32>, sender: SocketAddr, now: u64)
        requires
            old(self).wf(),
            time_ok(now),
        ensures
            final(self).wf(),
            refresh_step(*old(self), *final(self), tid, credentials, lifetime, sender, now),
    {
        let ghost pre = *self;
        if !self.check_auth(&credentials, now) {
            self.challenge(tid, sender);
            return;
        }
        if !self.client_allocation_exists(sender) {
            self.reject(tid, ALLOCATION_MISMATCH, sender);
            return;
        }
        let zero = match lifetime {
            Some(l) => l == 0,
            None => false,
        };
        if zero {
            self.free_client_allocations(sender);
            let ghost mid = *self;
            let msg = Message::RefreshSuccess { tid, lifetime: 0 };
            self.enqueue(Command::SendMessage { payload: msg, recipient: sender });
            proof {
                Server::lemma_history_after_benign_push(
                    mid.emitted@,
                    mid.allocations@,
                    mid.next_allocation_id,
                    self.emitted@.last(),
                );
                assert(self.pending@ =~= pre.pending@ + kept(
                    pre.allocations@,
                    |a: Allocation| a.client_addr == sender,
                ).map_values(|a: Allocation| free_command(a)) + seq![
                    send_to(Message::RefreshSuccess { tid, lifetime: 0 }, sender),
                ]);
                assert(self.emitted@ =~= pre.emitted@ + kept(
                    pre.allocations@,
                    |a: Allocation| a.client_addr == sender,
                ).map_values(|a: Allocation| free_command(a)) + seq![
                    send_to(Message::RefreshSuccess { tid, lifetime: 0 }, sender),
                ]);
            }
            return;
        }
        let granted: u64 = match lifetime {
            Some(l) => {
                if (l as u64) > MAX_ALLOCATION_LIFETIME {
                    MAX_ALLOCATION_LIFETIME
                } else {
                    l as u64
                }
            },
            None => DEFAULT_ALLOCATION_LIFETIME,
        };
        proof {
            assert(granted == granted_lifetime(lifetime));
        }
        let e = now + granted;
        let mut i: usize = 0;
        while i < self.allocations.len()
            invariant
                i <= self.allocations@.len(),
                pre == *old(self),
                pre.wf(),
                e < u64::MAX,
                e == now + granted_lifetime(lifetime),
                self.allocations@.len() == pre.allocations@.len(),
                forall|j: int|
                    0 <= j < i ==> if (#[trigger] pre.allocations@[j]).client_addr == sender {
                        expiry_set_rel(pre.allocations@[j], self.allocations@[j], e)
                    } else {
                        self.allocations@[j] == pre.allocations@[j]
                    },
                forall|j: int|
                    i <= j < pre.allocations@.len() ==> #[trigger] self.allocations@[j]
                        == pre.allocations@[j],
                self.public_addr == pre.public_addr,
                self.lowest_port == pre.lowest_port,
                self.highest_port == pre.highest_port,
                self.auth_secret@ == pre.auth_secret@,
                self.rng == pre.rng,
                self.next_allocation_id == pre.next_allocation_id,
                self.next_deadline == pre.next_deadline,
                self.announced_deadline == pre.announced_deadline,
                self.sends_dropped == pre.sends_dropped,
                self.relays_dropped == pre.relays_dropped,
                self.pending@ == pre.pending@,
                self.emitted@ == pre.emitted@,
            decreases self.allocations@.len() - i,
        {
            if self.allocations[i].client_addr == sender {
                let ghost before = self.allocations@;
                let mut a = self.allocations.remove(i);
                a.expiry = e;
                self.allocations.insert(i, a);
                proof {
                    assert(self.allocations@ =~= before.update(i as int, a));
                }
            }
            i = i + 1;
        }
        self.update_deadline();
        let ghost mid = *self;
        let msg = Message::RefreshSuccess { tid, lifetime: granted as u32 };
        self.enqueue(Command::SendMessage { payload: msg, recipient: sender });
        proof {
            assert(self.pending@ =~= pre.pending@ + seq![
                send_to((Message::RefreshSuccess { tid, lifetime: granted as u32 }), sender),
            ]);
            assert(self.emitted@ =~= pre.emitted@ + seq![
                send_to((Message::RefreshSuccess { tid, lifetime: granted as u32 }), sender),
            ]);
            // well-formedness: keys and contents are unchanged except the
            // expiry, which stays below `u64::MAX`
            assert forall|k: int|
                0 <= k < self.allocations@.len() implies self.allocation_entry_ok(
                #[trigger] self.allocations@[k],
            ) by {
                assert(pre.allocation_entry_ok(pre.allocations@[k]));
                if pre.allocations@[k].client_addr == sender {
                    assert(expiry_set_rel(pre.allocations@[k], self.allocations@[k], e));
                    assert forall|ii: int|
                        0 <= ii < self.allocations@[k].channels@.len() implies self.allocations@[
                        k].channel_ok(#[trigger] self.allocations@[k].channels@[ii]) by {
                        assert(pre.allocations@[k].channel_ok(
                            pre.allocations@[k].channels@[ii],
                        ));
                    }
                    assert forall|ii: int|
                        0 <= ii < self.allocations@[k].permissions@.len() implies self.allocations@[
                        k].permission_ok(#[trigger] self.allocations@[k].permissions@[ii]) by {
                        assert(pre.allocations@[k].permission_ok(
                            pre.allocations@[k].permissions@[ii],
                        ));
                    }
                }
            }
            assert forall|k: int, j: int|
                0 <= k < j < self.allocations@.len() implies !(self.allocations@[k].id
                == self.allocations@[j].id && self.allocations@[k].family
                == self.allocations@[j].family) && !(self.allocations@[k].relay_port
                == self.allocations@[j].relay_port && self.allocations@[k].family
                == self.allocations@[j].family) by {
                assert(self.allocations@[k].id == pre.allocations@[k].id
                    && self.allocations@[k].family == pre.allocations@[k].family
                    && self.allocations@[k].relay_port == pre.allocations@[k].relay_port);
                assert(self.allocations@[j].id == pre.allocations@[j].id
                    && self.allocations@[j].family == pre.allocations@[j].family
                    && self.allocations@[j].relay_port == pre.allocations@[j].relay_port);
            }
            assert forall|id2: AllocationId, f2: AddressFamily|
                has_allocation_entry(self.allocations@, id2, f2) == has_allocation_entry(
                pre.allocations@,
                id2,
                f2,
            ) by {
                if has_allocation_entry(self.allocations@, id2, f2) {
                    let w = choose|w: int|
                        0 <= w < self.allocations@.len() && (#[trigger] self.allocations@[w]).id
                            == id2 && self.allocations@[w].family == f2;
                    assert(pre.allocations@[w].id == id2 && pre.allocations@[w].family == f2);
                }
                if has_allocation_entry(pre.allocations@, id2, f2) {
                    let w = choose|w: int|
                        0 <= w < pre.allocations@.len() && (#[trigger] pre.allocations@[w]).id
                            == id2 && pre.allocations@[w].family == f2;
                    assert(self.allocations@[w].id == id2 && self.allocations@[w].family == f2);
                }
            }
            assert(history_ok(mid.emitted@, mid.allocations@, mid.next_allocation_id)) by {
                assert forall|id2: AllocationId, f2: AddressFamily|
                    {
                        &&& #[trigger] creates_for(mid.emitted@, id2, f2) <= 1
                        &&& frees_for(mid.emitted@, id2, f2) <= creates_for(mid.emitted@, id2, f2)
                        &&& (has_allocation_entry(mid.allocations@, id2, f2) <==> (creates_for(
                            mid.emitted@,
                            id2,
                            f2,
                        ) == 1 && frees_for(mid.emitted@, id2, f2) == 0))
                        &&& (id2.0 >= mid.next_allocation_id ==> creates_for(mid.emitted@, id2, f2)
                            == 0)
                    } by {
                    assert(creates_for(pre.emitted@, id2, f2) <= 1);
                    assert(has_allocation_entry(mid.allocations@, id2, f2)
                        == has_allocation_entry(pre.allocations@, id2, f2));
                }
            }
            Server::lemma_history_after_benign_push(
                mid.emitted@,
                mid.allocations@,
                mid.next_allocation_id,
                self.emitted@.last(),
            );
            assert forall|id2: AllocationId, f2: AddressFamily|
                has_allocation_entry(self.allocations@, id2, f2) == has_allocation_entry(
                pre.allocations@,
                id2,
                f2,
            ) by {
                if has_allocation_entry(self.allocations@, id2, f2) {
                    let w = choose|w: int|
                        0 <= w < self.allocations@.len() && (#[trigger] self.allocations@[w]).id
                            == id2 && self.allocations@[w].family == f2;
                    assert(pre.allocations@[w].id == id2 && pre.allocations@[w].family == f2);
                }
                if has_allocation_entry(pre.allocations@, id2, f2) {
                    let w = choose|w: int|
                        0 <= w < pre.allocations@.len() && (#[trigger] pre.allocations@[w]).id
                            == id2 && pre.allocations@[w].family == f2;
                    assert(self.allocations@[w].id == id2 && self.allocations@[w].family == f2);
                }
            }
            assert(self.wf());
        }
    }

    /// Answer a CREATE-PERMISSION request: install or refresh the peer's
    /// permission on the sender's allocation of the peer's family.
    fn handle_create_permission(&mut self, tid: TransactionId,
        credentials: Option<Credentials>, peer: SocketAddr, sender: SocketAddr, now: u64)
        requires
            old(self).wf(),
            time_ok(now),
        ensures
            final(self).wf(),
            create_permission_step(*old(self), *final(self), tid, credentials, peer, sender, now),
    {
        let ghost pre = *self;
        if !self.check_auth(&credentials, now) {
            self.challenge(tid, sender);
            return;
        }
        let idx = match self.find_client_allocation(sender, peer.family()) {
            Some(i) => i,
            None => {
                if self.client_allocation_exists(sender) {
                    self.reject(tid, PEER_ADDRESS_FAMILY_MISMATCH, sender);
                } else {
                    self.reject(tid, ALLOCATION_MISMATCH, sender);
                }
                return;
            },
        };
        let ghost before = self.allocations@;
        let mut a = self.allocations.remove(idx);
        proof {
            assert(pre.allocation_entry_ok(before[idx as int]));
        }
        a.grant_permission(peer.ip, now + PERMISSION_LIFETIME);
        self.allocations.insert(idx, a);
        proof {
            assert(self.allocations@ =~= before.update(idx as int, a));
        }
        self.update_deadline();
        let ghost mid = *self;
        self.enqueue(
            Command::SendMessage {
                payload: Message::CreatePermissionSuccess { tid },
                recipient: sender,
            },
        );
        proof {
            assert(self.pending@ =~= pre.pending@ + seq![
                send_to(Message::CreatePermissionSuccess { tid }, sender),
            ]);
            assert(self.emitted@ =~= pre.emitted@ + seq![
                send_to(Message::CreatePermissionSuccess { tid }, sender),
            ]);
            assert forall|k: int|
                0 <= k < self.allocations@.len() implies self.allocation_entry_ok(
                #[trigger] self.allocations@[k],
            ) by {
                assert(pre.allocation_entry_ok(pre.allocations@[k]));
            }
            assert forall|id2: AllocationId, f2: AddressFamily|
                has_allocation_entry(self.allocations@, id2, f2) == has_allocation_entry(
                pre.allocations@,
                id2,
                f2,
            ) by {
                if has_allocation_entry(self.allocations@, id2, f2) {
                    let w = choose|w: int|
                        0 <= w < self.allocations@.len() && (#[trigger] self.allocations@[w]).id
                            == id2 && self.allocations@[w].family == f2;
                    assert(pre.allocations@[w].id == id2 && pre.allocations@[w].family == f2);
                }
                if has_allocation_entry(pre.allocations@, id2, f2) {
                    let w = choose|w: int|
                        0 <= w < pre.allocations@.len() && (#[trigger] pre.allocations@[w]).id
                            == id2 && pre.allocations@[w].family == f2;
                    assert(self.allocations@[w].id == id2 && self.allocations@[w].family == f2);
                }
            }
            assert forall|id2: AllocationId, f2: AddressFamily|
                has_allocation_entry(self.allocations@, id2, f2) == has_allocation_entry(
                pre.allocations@,
                id2,
                f2,
            ) by {
                if has_allocation_entry(self.allocations@, id2, f2) {
                    let w = choose|w: int|
                        0 <= w < self.allocations@.len() && (#[trigger] self.allocations@[w]).id
                            == id2 && self.allocations@[w].family == f2;
                    assert(pre.allocations@[w].id == id2 && pre.allocations@[w].family == f2);
                }
                if has_allocation_entry(pre.allocations@, id2, f2) {
                    let w = choose|w: int|
                        0 <= w < pre.allocations@.len() && (#[trigger] pre.allocations@[w]).id
                            == id2 && pre.allocations@[w].family == f2;
                    assert(self.allocations@[w].id == id2 && self.allocations@[w].family == f2);
                }
            }
            assert(history_ok(mid.emitted@, mid.allocations@, mid.next_allocation_id)) by {
                assert forall|id2: AllocationId, f2: AddressFamily|
                    {
                        &&& #[trigger] creates_for(mid.emitted@, id2, f2) <= 1
                        &&& frees_for(mid.emitted@, id2, f2) <= creates_for(mid.emitted@, id2, f2)
                        &&& (has_allocation_entry(mid.allocations@, id2, f2) <==> (creates_for(
                            mid.emitted@,
                            id2,
                            f2,
                        ) == 1 && frees_for(mid.emitted@, id2, f2) == 0))
                        &&& (id2.0 >= mid.next_allocation_id ==> creates_for(mid.emitted@, id2, f2)
                            == 0)
                    } by {
                    assert(creates_for(pre.emitted@, id2, f2) <= 1);
                    assert(has_allocation_entry(mid.allocations@, id2, f2)
                        == has_allocation_entry(pre.allocations@, id2, f2));
                }
            }
            Server::lemma_history_after_benign_push(
                mid.emitted@,
                mid.allocations@,
                mid.next_allocation_id,
                self.emitted@.last(),
            );
            assert(self.wf());
            assert(first_client_family_index(
                pre.allocations@,
                sender,
                peer.spec_family(),
                idx as int,
            ));
        }
    }

    /// Answer a CHANNEL-BIND request: bind the number to the peer on the
    /// sender's allocation of the peer's family, refusing clashes.
    fn handle_channel_bind(&mut self, tid: TransactionId, credentials: Option<Credentials>,
        number: u16, peer: SocketAddr, sender: SocketAddr, now: u64)
        requires
            old(self).wf(),
            time_ok(now),
        ensures
            final(self).wf(),
            channel_bind_step(
                *old(self),
                *final(self),
                tid,
                credentials,
                number,
                peer,
                sender,
                now,
            ),
    {
        let ghost pre = *self;
        if !self.check_auth(&credentials, now) {
            self.challenge(tid, sender);
            return;
        }
        if number < FIRST_CHANNEL_NUMBER || number > LAST_CHANNEL_NUMBER {
            self.reject(tid, BAD_REQUEST, sender);
            return;
        }
        let idx = match self.find_client_allocation(sender, peer.family()) {
            Some(i) => i,
            None => {
                if self.client_allocation_exists(sender) {
                    self.reject(tid, PEER_ADDRESS_FAMILY_MISMATCH, sender);
                } else {
                    self.reject(tid, ALLOCATION_MISMATCH, sender);
                }
                return;
            },
        };
        proof {
            assert(pre.allocation_entry_ok(pre.allocations@[idx as int]));
            assert(first_client_family_index(
                pre.allocations@,
                sender,
                peer.spec_family(),
                idx as int,
            ));
        }
        let number_clash = match self.allocations[idx].find_channel_by_number(number) {
            Some(ci) => !(self.allocations[idx].channels[ci].peer == peer),
            None => false,
        };
        let peer_clash = match self.allocations[idx].find_channel_by_peer(peer) {
            Some(ci) => self.allocations[idx].channels[ci].number != number,
            None => false,
        };
        if number_clash || peer_clash {
            proof {
                assert(channel_conflict(pre.allocations@[idx as int], number, peer));
            }
            self.reject(tid, BAD_REQUEST, sender);
            return;
        }
        proof {
            // no clash: the unique holder of the number (if any) is `peer`,
            // and the unique binding of `peer` (if any) uses `number`
            let a = pre.allocations@[idx as int];
            assert(!channel_conflict(a, number, peer));
            assert forall|ci: int|
                0 <= ci < a.channels@.len() && (#[trigger] a.channels@[ci]).number
                    == number implies a.channels@[ci].peer == peer by {}
            assert forall|ci: int|
                0 <= ci < a.channels@.len() && (#[trigger] a.channels@[ci]).peer
                    == peer implies a.channels@[ci].number == number by {}
        }
        let ghost before = self.allocations@;
        let mut a = self.allocations.remove(idx);
        a.bind_channel(number, peer, now);
        self.allocations.insert(idx, a);
        proof {
            assert(self.allocations@ =~= before.update(idx as int, a));
        }
        self.update_deadline();
        let ghost mid = *self;
        self.enqueue(
            Command::SendMessage {
                payload: Message::ChannelBindSuccess { tid },
                recipient: sender,
            },
        );
        proof {
            assert(self.pending@ =~= pre.pending@ + seq![
                send_to(Message::ChannelBindSuccess { tid }, sender),
            ]);
            assert(self.emitted@ =~= pre.emitted@ + seq![
                send_to(Message::ChannelBindSuccess { tid }, sender),
            ]);
            assert forall|k: int|
                0 <= k < self.allocations@.len() implies self.allocation_entry_ok(
                #[trigger] self.allocations@[k],
            ) by {
                assert(pre.allocation_entry_ok(pre.allocations@[k]));
            }
            assert forall|id2: AllocationId, f2: AddressFamily|
                has_allocation_entry(self.allocations@, id2, f2) == has_allocation_entry(
                pre.allocations@,
                id2,
                f2,
            ) by {
                if has_allocation_entry(self.allocations@, id2, f2) {
                    let w = choose|w: int|
                        0 <= w < self.allocations@.len() && (#[trigger] self.allocations@[w]).id
                            == id2 && self.allocations@[w].family == f2;
                    assert(pre.allocations@[w].id == id2 && pre.allocations@[w].family == f2);
                }
                if has_allocation_entry(pre.allocations@, id2, f2) {
                    let w = choose|w: int|
                        0 <= w < pre.allocations@.len() && (#[trigger] pre.allocations@[w]).id
                            == id2 && pre.allocations@[w].family == f2;
                    assert(self.allocations@[w].id == id2 && self.allocations@[w].family == f2);
                }
            }
            assert forall|id2: AllocationId, f2: AddressFamily|
                has_allocation_entry(self.allocations@, id2, f2) == has_allocation_entry(
                pre.allocations@,
                id2,
                f2,
            ) by {
                if has_allocation_entry(self.allocations@, id2, f2) {
                    let w = choose|w: int|
                        0 <= w < self.allocations@.len() && (#[trigger] self.allocations@[w]).id
                            == id2 && self.allocations@[w].family == f2;
                    assert(pre.allocations@[w].id == id2 && pre.allocations@[w].family == f2);
                }
                if has_allocation_entry(pre.allocations@, id2, f2) {
                    let w = choose|w: int|
                        0 <= w < pre.allocations@.len() && (#[trigger] pre.allocations@[w]).id
                            == id2 && pre.allocations@[w].family == f2;
                    assert(self.allocations@[w].id == id2 && self.allocations@[w].family == f2);
                }
            }
            assert(history_ok(mid.emitted@, mid.allocations@, mid.next_allocation_id)) by {
                assert forall|id2: AllocationId, f2: AddressFamily|
                    {
                        &&& #[trigger] creates_for(mid.emitted@, id2, f2) <= 1
                        &&& frees_for(mid.emitted@, id2, f2) <= creates_for(mid.emitted@, id2, f2)
                        &&& (has_allocation_entry(mid.allocations@, id2, f2) <==> (creates_for(
                            mid.emitted@,
                            id2,
                            f2,
                        ) == 1 && frees_for(mid.emitted@, id2, f2) == 0))
                        &&& (id2.0 >= mid.next_allocation_id ==> creates_for(mid.emitted@, id2, f2)
                            == 0)
                    } by {
                    assert(creates_for(pre.emitted@, id2, f2) <= 1);
                    assert(has_allocation_entry(mid.allocations@, id2, f2)
                        == has_allocation_entry(pre.allocations@, id2, f2));
                }
            }
            Server::lemma_history_after_benign_push(
                mid.emitted@,
                mid.allocations@,
                mid.next_allocation_id,
                self.emitted@.last(),
            );
            assert(self.wf());
        }
    }

    /// Draw a random starting offset and probe the port range for a free
    /// port of `family`: from the offset up, then from the bottom of the
    /// range to the offset.  Only the generator state changes.
    fn pick_port(&mut self, family: AddressFamily) -> (r: Option<u16>)
        requires
            old(self).wf(),
        ensures
            final(self).wf(),
            final(self).public_addr == old(self).public_addr,
            final(self).lowest_port == old(self).lowest_port,
            final(self).highest_port == old(self).highest_port,
            final(self).auth_secret@ == old(self).auth_secret@,
            final(self).next_allocation_id == old(self).next_allocation_id,
            final(self).allocations@ == old(self).allocations@,
            final(self).pending@ == old(self).pending@,
            final(self).emitted@ == old(self).emitted@,
            final(self).next_deadline == old(self).next_deadline,
            final(self).announced_deadline == old(self).announced_deadline,
            final(self).sends_dropped == old(self).sends_dropped,
            final(self).relays_dropped == old(self).relays_dropped,
            match r {
                Some(p) => old(self).lowest_port <= p <= old(self).highest_port && !port_in_use(
                    old(self).allocations@,
                    p,
                    family,
                ),
                None => forall|p: u16|
                    old(self).lowest_port <= p <= old(self).highest_port ==> port_in_use(
                        old(self).allocations@,
                        p,
                        family,
                    ),
            },
    {
        let lo = self.lowest_port;
        let hi = self.highest_port;
        let len: u32 = (hi as u32) - (lo as u32) + 1;
        let word = next_u32(&mut self.rng);
        let offset: u32 = word % len;
        let start: u16 = lo + (offset as u16);
        let ghost base = *self;
        let mut p: u32 = start as u32;
        while p <= hi as u32
            invariant
                *self == base,
                base.wf(),
                base.lowest_port == old(self).lowest_port,
                base.highest_port == old(self).highest_port,
                base.public_addr == old(self).public_addr,
                base.auth_secret@ == old(self).auth_secret@,
                base.next_allocation_id == old(self).next_allocation_id,
                base.allocations@ == old(self).allocations@,
                base.pending@ == old(self).pending@,
                base.emitted@ == old(self).emitted@,
                base.next_deadline == old(self).next_deadline,
                base.announced_deadline == old(self).announced_deadline,
                base.sends_dropped == old(self).sends_dropped,
                base.relays_dropped == old(self).relays_dropped,
                lo == base.lowest_port,
                hi == base.highest_port,
                lo <= start <= hi,
                start as u32 <= p,
                forall|q: u32|
                    start as u32 <= q < p ==> port_in_use(
                        base.allocations@,
                        #[trigger] (q as u16),
                        family,
                    ),
            decreases hi as u32 + 1 - p,
        {
            if self.port_is_free(p as u16, family) {
                return Some(p as u16);
            }
            p = p + 1;
        }
        let mut q: u32 = lo as u32;
        while q < start as u32
            invariant
                *self == base,
                base.wf(),
                base.lowest_port == old(self).lowest_port,
                base.highest_port == old(self).highest_port,
                base.public_addr == old(self).public_addr,
                base.auth_secret@ == old(self).auth_secret@,
                base.next_allocation_id == old(self).next_allocation_id,
                base.allocations@ == old(self).allocations@,
                base.pending@ == old(self).pending@,
                base.emitted@ == old(self).emitted@,
                base.next_deadline == old(self).next_deadline,
                base.announced_deadline == old(self).announced_deadline,
                base.sends_dropped == old(self).sends_dropped,
                base.relays_dropped == old(self).relays_dropped,
                lo == base.lowest_port,
                hi == base.highest_port,
                lo <= start <= hi,
                lo as u32 <= q <= start as u32,
                forall|w: u32|
                    start as u32 <= w <= hi as u32 ==> port_in_use(
                        base.allocations@,
                        #[trigger] (w as u16),
                        family,
                    ),
                forall|w: u32|
                    lo as u32 <= w < q ==> port_in_use(
                        base.allocations@,
                        #[trigger] (w as u16),
                        family,
                    ),
            decreases start as u32 - q,
        {
            if self.port_is_free(q as u16, family) {
                return Some(q as u16);
            }
            q = q + 1;
        }
        proof {
            assert forall|pp: u16| lo <= pp <= hi implies port_in_use(
                base.allocations@,
                pp,
                family,
            ) by {
                if pp >= start {
                    assert(port_in_use(base.allocations@, (pp as u32) as u16, family));
                } else {
                    assert(port_in_use(base.allocations@, (pp as u32) as u16, family));
                }
            }
        }
        None
    }

    /// The lifetime to grant for a request.
    fn grant_lifetime(lifetime: &Option<u32>) -> (r: u64)
        ensures
            r == granted_lifetime(*lifetime),
    {
        match lifetime {
            Some(l) => {
                if (*l as u64) > MAX_ALLOCATION_LIFETIME {
                    MAX_ALLOCATION_LIFETIME
                } else {
                    *l as u64
                }
            },
            None => DEFAULT_ALLOCATION_LIFETIME,
        }
    }

    /// Answer an ALLOCATE request: lease one relay port per served family
    /// under a fresh identifier, or refuse it.
    #[verifier::rlimit(80)]
    fn handle_allocate(&mut self, tid: TransactionId, credentials: Option<Credentials>,
        requested_transport: u8, lifetime: Option<u32>, sender: SocketAddr, now: u64)
        requires
            old(self).wf(),
            time_ok(now),
        ensures
            final(self).wf(),
            allocate_step(
                *old(self),
                *final(self),
                tid,
                credentials,
                requested_transport,
                lifetime,
                sender,
                now,
            ),
    {
        let ghost pre = *self;
        if !self.check_auth(&credentials, now) {
            self.challenge(tid, sender);
            return;
        }
        if requested_transport != UDP_TRANSPORT {
            self.reject(tid, UNSUPPORTED_TRANSPORT_PROTOCOL, sender);
            return;
        }
        if self.client_allocation_exists(sender) {
            self.reject(tid, ALLOCATION_MISMATCH, sender);
            return;
        }
        if self.next_allocation_id == u64::MAX {
            self.reject(tid, INSUFFICIENT_CAPACITY, sender);
            return;
        }
        let granted = Server::grant_lifetime(&lifetime);
        let e = now + granted;
        let id = self.next_allocation_id;
        let stack = self.public_addr;
        match stack {
            IpStack::Ip4(ip4) => {
                let p = match self.pick_port(AddressFamily::V4) {
                    Some(p) => p,
                    None => {
                        self.reject(tid, INSUFFICIENT_CAPACITY, sender);
                        return;
                    },
                };
                let a = Allocation {
                    id: AllocationId(id),
                    family: AddressFamily::V4,
                    relay_port: p,
                    client_addr: sender,
                    expiry: e,
                    channels: Vec::new(),
                    permissions: Vec::new(),
                };
                let ghost mid = *self;
                self.allocations.push(a);
                self.next_allocation_id = id + 1;
                self.enqueue(
                    Command::CreateAllocation { id: AllocationId(id), family: AddressFamily::V4, port: p },
                );
                let success = Message::AllocateSuccess {
                    tid,
                    relayed_v4: Some(SocketAddr { ip: IpAddr::V4(ip4), port: p }),
                    relayed_v6: None,
                    lifetime: granted as u32,
                };
                self.enqueue(Command::SendMessage { payload: success, recipient: sender });
                self.update_deadline();
                proof {
                    let e2 = (now + granted) as u64;
                    let f = a.family;
                    let cmd_c = Command::CreateAllocation {
                        id: AllocationId(id),
                        family: f,
                        port: p,
                    };
                    let cmd_s = send_to(success, sender);
                    assert(self.pending@ =~= pre.pending@ + seq![cmd_c, cmd_s]);
                    assert(self.emitted@ =~= pre.emitted@ + seq![cmd_c, cmd_s]);
                    assert(self.emitted@ =~= pre.emitted@.push(cmd_c).push(cmd_s));
                    Server::lemma_counts_after_push(pre.emitted@, cmd_c);
                    Server::lemma_counts_after_push(pre.emitted@.push(cmd_c), cmd_s);
                    assert(self.allocations@ =~= pre.allocations@.push(a));
                    assert(a.channels@ =~= Seq::<ChannelBinding>::empty());
                    assert(a.permissions@ =~= Seq::<Permission>::empty());
                    assert(a.wf());
                    assert forall|k: int|
                        0 <= k < self.allocations@.len() implies self.allocation_entry_ok(
                        #[trigger] self.allocations@[k],
                    ) by {
                        if k < pre.allocations@.len() {
                            assert(pre.allocation_entry_ok(pre.allocations@[k]));
                        }
                    }
                    assert forall|k: int, j: int|
                        0 <= k < j < self.allocations@.len() implies !(self.allocations@[k].id
                        == self.allocations@[j].id && self.allocations@[k].family
                        == self.allocations@[j].family) && !(self.allocations@[k].relay_port
                        == self.allocations@[j].relay_port && self.allocations@[k].family
                        == self.allocations@[j].family) by {
                        if j == pre.allocations@.len() {
                            assert(pre.allocation_entry_ok(pre.allocations@[k]));
                            assert(!port_in_use(pre.allocations@, p, f));
                            assert(!(pre.allocations@[k].relay_port == p
                                && pre.allocations@[k].family == f));
                        }
                    }
                    assert forall|id2: AllocationId, f2: AddressFamily|
                        {
                            &&& #[trigger] creates_for(self.emitted@, id2, f2) <= 1
                            &&& frees_for(self.emitted@, id2, f2) <= creates_for(
                                self.emitted@,
                                id2,
                                f2,
                            )
                            &&& (has_allocation_entry(self.allocations@, id2, f2) <==> (
                            creates_for(self.emitted@, id2, f2) == 1 && frees_for(
                                self.emitted@,
                                id2,
                                f2,
                            ) == 0))
                            &&& (id2.0 >= self.next_allocation_id ==> creates_for(
                                self.emitted@,
                                id2,
                                f2,
                            ) == 0)
                        } by {
                        assert(creates_for(pre.emitted@, id2, f2) <= 1);
                        if id2 == AllocationId(id) && f2 == f {
                            assert(creates_for(pre.emitted@, id2, f2) == 0);
                            assert(self.allocations@[pre.allocations@.len() as int] == a);
                        } else {
                            if has_allocation_entry(self.allocations@, id2, f2) {
                                let w = choose|w: int|
                                    0 <= w < self.allocations@.len() && (
                                    #[trigger] self.allocations@[w]).id == id2
                                        && self.allocations@[w].family == f2;
                                assert(w < pre.allocations@.len());
                                assert(pre.allocations@[w].id == id2
                                    && pre.allocations@[w].family == f2);
                            }
                            if has_allocation_entry(pre.allocations@, id2, f2) {
                                let w = choose|w: int|
                                    0 <= w < pre.allocations@.len() && (
                                    #[trigger] pre.allocations@[w]).id == id2
                                        && pre.allocations@[w].family == f2;
                                assert(self.allocations@[w].id == id2
                                    && self.allocations@[w].family == f2);
                            }
                        }
                    }
                    assert(self.wf());
                    assert(is_fresh_allocation(a, id, f, p, sender, e2));
                    assert(can_allocate(pre));
                    assert(allocate_success(pre, *self, tid, sender, now, granted));
                }
            },
            IpStack::Ip6(ip6) => {
                let p = match self.pick_port(AddressFamily::V6) {
                    Some(p) => p,
                    None => {
                        self.reject(tid, INSUFFICIENT_CAPACITY, sender);
                        return;
                    },
                };
                let a = Allocation {
                    id: AllocationId(id),
                    family: AddressFamily::V6,
                    relay_port: p,
                    client_addr: sender,
                    expiry: e,
                    channels: Vec::new(),
                    permissions: Vec::new(),
                };
                let ghost mid = *self;
                self.allocations.push(a);
                self.next_allocation_id = id + 1;
                self.enqueue(
                    Command::CreateAllocation { id: AllocationId(id), family: AddressFamily::V6, port: p },
                );
                let success = Message::AllocateSuccess {
                    tid,
                    relayed_v4: None,
                    relayed_v6: Some(SocketAddr { ip: IpAddr::V6(ip6), port: p }),
                    lifetime: granted as u32,
                };
                self.enqueue(Command::SendMessage { payload: success, recipient: sender });
                self.update_deadline();
                proof {
                    let e2 = (now + granted) as u64;
                    let f = a.family;
                    let cmd_c = Command::CreateAllocation {
                        id: AllocationId(id),
                        family: f,
                        port: p,
                    };
                    let cmd_s = send_to(success, sender);
                    assert(self.pending@ =~= pre.pending@ + seq![cmd_c, cmd_s]);
                    assert(self.emitted@ =~= pre.emitted@ + seq![cmd_c, cmd_s]);
                    assert(self.emitted@ =~= pre.emitted@.push(cmd_c).push(cmd_s));
                    Server::lemma_counts_after_push(pre.emitted@, cmd_c);
                    Server::lemma_counts_after_push(pre.emitted@.push(cmd_c), cmd_s);
                    assert(self.allocations@ =~= pre.allocations@.push(a));
                    assert(a.channels@ =~= Seq::<ChannelBinding>::empty());
                    assert(a.permissions@ =~= Seq::<Permission>::empty());
                    assert(a.wf());
                    assert forall|k: int|
                        0 <= k < self.allocations@.len() implies self.allocation_entry_ok(
                        #[trigger] self.allocations@[k],
                    ) by {
                        if k < pre.allocations@.len() {
                            assert(pre.allocation_entry_ok(pre.allocations@[k]));
                        }
                    }
                    assert forall|k: int, j: int|
                        0 <= k < j < self.allocations@.len() implies !(self.allocations@[k].id
                        == self.allocations@[j].id && self.allocations@[k].family
                        == self.allocations@[j].family) && !(self.allocations@[k].relay_port
                        == self.allocations@[j].relay_port && self.allocations@[k].family
                        == self.allocations@[j].family) by {
                        if j == pre.allocations@.len() {
                            assert(pre.allocation_entry_ok(pre.allocations@[k]));
                            assert(!port_in_use(pre.allocations@, p, f));
                            assert(!(pre.allocations@[k].relay_port == p
                                && pre.allocations@[k].family == f));
                        }
                    }
                    assert forall|id2: AllocationId, f2: AddressFamily|
                        {
                            &&& #[trigger] creates_for(self.emitted@, id2, f2) <= 1
                            &&& frees_for(self.emitted@, id2, f2) <= creates_for(
                                self.emitted@,
                                id2,
                                f2,
                            )
                            &&& (has_allocation_entry(self.allocations@, id2, f2) <==> (
                            creates_for(self.emitted@, id2, f2) == 1 && frees_for(
                                self.emitted@,
                                id2,
                                f2,
                            ) == 0))
                            &&& (id2.0 >= self.next_allocation_id ==> creates_for(
                                self.emitted@,
                                id2,
                                f2,
                            ) == 0)
                        } by {
                        assert(creates_for(pre.emitted@, id2, f2) <= 1);
                        if id2 == AllocationId(id) && f2 == f {
                            assert(creates_for(pre.emitted@, id2, f2) == 0);
                            assert(self.allocations@[pre.allocations@.len() as int] == a);
                        } else {
                            if has_allocation_entry(self.allocations@, id2, f2) {
                                let w = choose|w: int|
                                    0 <= w < self.allocations@.len() && (
                                    #[trigger] self.allocations@[w]).id == id2
                                        && self.allocations@[w].family == f2;
                                assert(w < pre.allocations@.len());
                                assert(pre.allocations@[w].id == id2
                                    && pre.allocations@[w].family == f2);
                            }
                            if has_allocation_entry(pre.allocations@, id2, f2) {
                                let w = choose|w: int|
                                    0 <= w < pre.allocations@.len() && (
                                    #[trigger] pre.allocations@[w]).id == id2
                                        && pre.allocations@[w].family == f2;
                                assert(self.allocations@[w].id == id2
                                    && self.allocations@[w].family == f2);
                            }
                        }
                    }
                    assert(self.wf());
                    assert(is_fresh_allocation(a, id, f, p, sender, e2));
                    assert(can_allocate(pre));
                    assert(allocate_success(pre, *self, tid, sender, now, granted));
                }
            },
            IpStack::Dual { ip4, ip6 } => {
                let p4 = self.pick_port(AddressFamily::V4);
                let p6 = self.pick_port(AddressFamily::V6);
                let (p4, p6) = match (p4, p6) {
                    (Some(p4), Some(p6)) => (p4, p6),
                    _ => {
                        self.reject(tid, INSUFFICIENT_CAPACITY, sender);
                        return;
                    },
                };
                let a4 = Allocation {
                    id: AllocationId(id),
                    family: AddressFamily::V4,
                    relay_port: p4,
                    client_addr: sender,
                    expiry: e,
                    channels: Vec::new(),
                    permissions: Vec::new(),
                };
                let a6 = Allocation {
                    id: AllocationId(id),
                    family: AddressFamily::V6,
                    relay_port: p6,
                    client_addr: sender,
                    expiry: e,
                    channels: Vec::new(),
                    permissions: Vec::new(),
                };
                let ghost mid = *self;
                self.allocations.push(a4);
                self.allocations.push(a6);
                self.next_allocation_id = id + 1;
                self.enqueue(
                    Command::CreateAllocation { id: AllocationId(id), family: AddressFamily::V4, port: p4 },
                );
                self.enqueue(
                    Command::CreateAllocation { id: AllocationId(id), family: AddressFamily::V6, port: p6 },
                );
                let success = Message::AllocateSuccess {
                    tid,
                    relayed_v4: Some(SocketAddr { ip: IpAddr::V4(ip4), port: p4 }),
                    relayed_v6: Some(SocketAddr { ip: IpAddr::V6(ip6), port: p6 }),
                    lifetime: granted as u32,
                };
                self.enqueue(Command::SendMessage { payload: success, recipient: sender });
                self.update_deadline();
                proof {
                    let e2 = (now + granted) as u64;
                    let cmd_c4 = Command::CreateAllocation {
                        id: AllocationId(id),
                        family: AddressFamily::V4,
                        port: p4,
                    };
                    let cmd_c6 = Command::CreateAllocation {
                        id: AllocationId(id),
                        family: AddressFamily::V6,
                        port: p6,
                    };
                    let cmd_s = send_to(success, sender);
                    assert(self.pending@ =~= pre.pending@ + seq![cmd_c4, cmd_c6, cmd_s]);
                    assert(self.emitted@ =~= pre.emitted@ + seq![cmd_c4, cmd_c6, cmd_s]);
                    assert(self.emitted@ =~= pre.emitted@.push(cmd_c4).push(cmd_c6).push(cmd_s));
                    Server::lemma_counts_after_push(pre.emitted@, cmd_c4);
                    Server::lemma_counts_after_push(pre.emitted@.push(cmd_c4), cmd_c6);
                    Server::lemma_counts_after_push(pre.emitted@.push(cmd_c4).push(cmd_c6), cmd_s);
                    assert(self.allocations@ =~= pre.allocations@.push(a4).push(a6));
                    assert(a4.channels@ =~= Seq::<ChannelBinding>::empty());
                    assert(a4.permissions@ =~= Seq::<Permission>::empty());
                    assert(a6.channels@ =~= Seq::<ChannelBinding>::empty());
                    assert(a6.permissions@ =~= Seq::<Permission>::empty());
                    assert(a4.wf());
                    assert(a6.wf());
                    assert forall|k: int|
                        0 <= k < self.allocations@.len() implies self.allocation_entry_ok(
                        #[trigger] self.allocations@[k],
                    ) by {
                        if k < pre.allocations@.len() {
                            assert(pre.allocation_entry_ok(pre.allocations@[k]));
                        }
                    }
                    assert forall|k: int, j: int|
                        0 <= k < j < self.allocations@.len() implies !(self.allocations@[k].id
                        == self.allocations@[j].id && self.allocations@[k].family
                        == self.allocations@[j].family) && !(self.allocations@[k].relay_port
                        == self.allocations@[j].relay_port && self.allocations@[k].family
                        == self.allocations@[j].family) by {
                        if k < pre.allocations@.len() && j >= pre.allocations@.len() {
                            assert(pre.allocation_entry_ok(pre.allocations@[k]));
                            assert(!port_in_use(pre.allocations@, p4, AddressFamily::V4));
                            assert(!port_in_use(pre.allocations@, p6, AddressFamily::V6));
                            assert(!(pre.allocations@[k].relay_port == p4
                                && pre.allocations@[k].family == AddressFamily::V4));
                            assert(!(pre.allocations@[k].relay_port == p6
                                && pre.allocations@[k].family == AddressFamily::V6));
                        }
                    }
                    assert forall|id2: AllocationId, f2: AddressFamily|
                        {
                            &&& #[trigger] creates_for(self.emitted@, id2, f2) <= 1
                            &&& frees_for(self.emitted@, id2, f2) <= creates_for(
                                self.emitted@,
                                id2,
                                f2,
                            )
                            &&& (has_allocation_entry(self.allocations@, id2, f2) <==> (
                            creates_for(self.emitted@, id2, f2) == 1 && frees_for(
                                self.emitted@,
                                id2,
                                f2,
                            ) == 0))
                            &&& (id2.0 >= self.next_allocation_id ==> creates_for(
                                self.emitted@,
                                id2,
                                f2,
                            ) == 0)
                        } by {
                        assert(creates_for(pre.emitted@, id2, f2) <= 1);
                        if id2 == AllocationId(id) && f2 == AddressFamily::V4 {
                            assert(creates_for(pre.emitted@, id2, f2) == 0);
                            assert(self.allocations@[pre.allocations@.len() as int] == a4);
                        } else if id2 == AllocationId(id) && f2 == AddressFamily::V6 {
                            assert(creates_for(pre.emitted@, id2, f2) == 0);
                            assert(self.allocations@[pre.allocations@.len() as int + 1] == a6);
                        } else {
                            if has_allocation_entry(self.allocations@, id2, f2) {
                                let w = choose|w: int|
                                    0 <= w < self.allocations@.len() && (
                                    #[trigger] self.allocations@[w]).id == id2
                                        && self.allocations@[w].family == f2;
                                assert(w < pre.allocations@.len());
                                assert(pre.allocations@[w].id == id2
                                    && pre.allocations@[w].family == f2);
                            }
                            if has_allocation_entry(pre.allocations@, id2, f2) {
                                let w = choose|w: int|
                                    0 <= w < pre.allocations@.len() && (
                                    #[trigger] pre.allocations@[w]).id == id2
                                        && pre.allocations@[w].family == f2;
                                assert(self.allocations@[w].id == id2
                                    && self.allocations@[w].family == f2);
                            }
                        }
                    }
                    assert(self.wf());
                    assert(is_fresh_allocation(a4, id, AddressFamily::V4, p4, sender, e2));
                    assert(is_fresh_allocation(a6, id, AddressFamily::V6, p6, sender, e2));
                    assert(can_allocate(pre));
                    assert(allocate_success(pre, *self, tid, sender, now, granted));
                }
            },
        }
    }

    /// Ingest one parsed client datagram at time `now`.
    ///
    /// Dispatches on the STUN/TURN method and performs exactly the step
    /// [`client_step`] describes for it: state updates plus an ordered
    /// batch of commands appended to the queue.
    pub fn handle_client_input(&mut self, message: ClientMessage, sender: SocketAddr,
        now: u64)
        requires
            old(self).wf(),
            time_ok(now),
        ensures
            final(self).wf(),
            client_step(*old(self), *final(self), message, sender, now),
    {
        match message {
            ClientMessage::Binding { tid } => {
                self.handle_binding(tid, sender);
            },
            ClientMessage::Allocate { tid, credentials, requested_transport, lifetime } => {
                self.handle_allocate(
                    tid,
                    credentials,
                    requested_transport,
                    lifetime,
                    sender,
                    now,
                );
            },
            ClientMessage::Refresh { tid, credentials, lifetime } => {
                self.handle_refresh(tid, credentials, lifetime, sender, now);
            },
            ClientMessage::CreatePermission { tid, credentials, peer } => {
                self.handle_create_permission(tid, credentials, peer, sender, now);
            },
            ClientMessage::ChannelBind { tid, credentials, channel, peer } => {
                self.handle_channel_bind(tid, credentials, channel, peer, sender, now);
            },
            ClientMessage::SendIndication { peer, data } => {
                self.handle_send_indication(peer, data, sender, now);
            },
            ClientMessage::ChannelData { channel, data } => {
                self.handle_channel_data(channel, data, sender, now);
            },
        }
    }
}

} // verus!
