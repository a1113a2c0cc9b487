//! One TURN allocation: a leased relay port together with the permissions
//! and channel bindings that authorize peers to exchange data through it.
//!
//! Lifetimes are absolute deadlines in whole seconds.  The well-formedness
//! predicate [`Allocation::wf`] carries the per-allocation invariants: no
//! channel number and no peer is bound twice, every binding's peer holds a
//! permission that outlives the binding, and permissions name one peer each.

use vstd::prelude::*;
use crate::addr::{AddressFamily, IpAddr, SocketAddr};
use crate::seq_util::{kept, lemma_kept_push, lemma_kept_membership, lemma_kept_distinct_by,
    lemma_kept_source};

verus! {

/// Lowest channel number the TURN range reserves.
pub const FIRST_CHANNEL_NUMBER: u16 = 0x4000;
/// Highest channel number the TURN range reserves.
pub const LAST_CHANNEL_NUMBER: u16 = 0x4FFF;
/// Seconds a permission lives from its creation or refresh.
pub const PERMISSION_LIFETIME: u64 = 300;
/// Seconds a channel binding lives from its creation or refresh.
pub const CHANNEL_LIFETIME: u64 = 600;

/// The smaller of two `u64` values.
pub open spec fn min64(a: u64, b: u64) -> u64 {
    if a <= b {
        a
    } else {
        b
    }
}

/// The larger of two `u64` values.
pub open spec fn max64(a: u64, b: u64) -> u64 {
    if a >= b {
        a
    } else {
        b
    }
}

/// Identifier of an allocation, unique for the lifetime of a server.
#[derive(Clone, Copy, PartialEq, Eq, Structural, Debug)]
pub struct AllocationId(pub u64);

/// Authorization for one peer address to exchange data with the client.
#[derive(Clone, Copy, PartialEq, Eq, Structural, Debug)]
pub struct Permission {
    pub peer_ip: IpAddr,
    pub expiry: u64,
}

/// A channel number bound to one peer endpoint.
#[derive(Clone, Copy, PartialEq, Eq, Structural, Debug)]
pub struct ChannelBinding {
    pub number: u16,
    pub peer: SocketAddr,
    pub expiry: u64,
}

/// A live allocation: the relay port leased to one client for one family.
#[derive(Clone, Debug)]
pub struct Allocation {
    pub id: AllocationId,
    pub family: AddressFamily,
    pub relay_port: u16,
    pub client_addr: SocketAddr,
    pub expiry: u64,
    pub channels: Vec<ChannelBinding>,
    pub permissions: Vec<Permission>,
}

/// The least expiry among a sequence of channel bindings, `u64::MAX` if
/// there is none.
pub open spec fn channels_min_expiry(s: Seq<ChannelBinding>) -> u64
    decreases s.len(),
{
    if s.len() == 0 {
        u64::MAX
    } else {
        min64(channels_min_expiry(s.drop_last()), s.last().expiry)
    }
}

/// The least expiry among a sequence of permissions, `u64::MAX` if there
/// is none.
pub open spec fn permissions_min_expiry(s: Seq<Permission>) -> u64
    decreases s.len(),
{
    if s.len() == 0 {
        u64::MAX
    } else {
        min64(permissions_min_expiry(s.drop_last()), s.last().expiry)
    }
}

pub proof fn lemma_channels_min_push(s: Seq<ChannelBinding>, x: ChannelBinding)
    ensures
        channels_min_expiry(s.push(x)) == min64(channels_min_expiry(s), x.expiry),
{
    assert(s.push(x).drop_last() =~= s);
}

pub proof fn lemma_permissions_min_push(s: Seq<Permission>, x: Permission)
    ensures
        permissions_min_expiry(s.push(x)) == min64(permissions_min_expiry(s), x.expiry),
{
    assert(s.push(x).drop_last() =~= s);
}

/// The minimum over channel bindings bounds each element from below.
pub proof fn lemma_channels_min_le(s: Seq<ChannelBinding>, i: int)
    requires
        0 <= i < s.len(),
    ensures
        channels_min_expiry(s) <= s[i].expiry,
    decreases s.len(),
{
    if i < s.len() - 1 {
        assert(s.drop_last()[i] == s[i]);
        lemma_channels_min_le(s.drop_last(), i);
    }
}

/// The minimum over permissions bounds each element from below.
pub proof fn lemma_permissions_min_le(s: Seq<Permission>, i: int)
    requires
        0 <= i < s.len(),
    ensures
        permissions_min_expiry(s) <= s[i].expiry,
    decreases s.len(),
{
    if i < s.len() - 1 {
        assert(s.drop_last()[i] == s[i]);
        lemma_permissions_min_le(s.drop_last(), i);
    }
}

/// `pb` is `pa` with the permission for `ip` installed or refreshed to
/// last at least until `until`, never shrinking an existing deadline.
pub open spec fn perms_granted_rel(
    pa: Seq<Permission>,
    pb: Seq<Permission>,
    ip: IpAddr,
    until: u64,
) -> bool {
    if exists|k: int| 0 <= k < pa.len() && (#[trigger] pa[k]).peer_ip == ip {
        exists|k: int|
            0 <= k < pa.len() && (#[trigger] pa[k]).peer_ip == ip && pb == pa.update(
                k,
                (Permission { peer_ip: ip, expiry: max64(pa[k].expiry, until) }),
            )
    } else {
        pb == pa.push((Permission { peer_ip: ip, expiry: until }))
    }
}

/// `b` is `a` after granting `ip` a permission until `until`.
pub open spec fn granted_rel(a: Allocation, b: Allocation, ip: IpAddr, until: u64) -> bool {
    &&& b.id == a.id
    &&& b.family == a.family
    &&& b.relay_port == a.relay_port
    &&& b.client_addr == a.client_addr
    &&& b.expiry == a.expiry
    &&& b.channels@ == a.channels@
    &&& perms_granted_rel(a.permissions@, b.permissions@, ip, until)
}

/// `b` is `a` after binding `number` to `peer` at time `now`: the binding
/// is installed or refreshed, and the peer's permission is granted for at
/// least the binding's lifetime.
pub open spec fn bound_rel(
    a: Allocation,
    b: Allocation,
    number: u16,
    peer: SocketAddr,
    now: u64,
) -> bool {
    let expiry = (now + CHANNEL_LIFETIME) as u64;
    &&& b.id == a.id
    &&& b.family == a.family
    &&& b.relay_port == a.relay_port
    &&& b.client_addr == a.client_addr
    &&& b.expiry == a.expiry
    &&& if a.has_channel_number(number) {
        exists|ci: int|
            0 <= ci < a.channels@.len() && (#[trigger] a.channels@[ci]).number == number
                && b.channels@ == a.channels@.update(
                ci,
                (ChannelBinding { number, peer, expiry }),
            )
    } else {
        b.channels@ == a.channels@.push((ChannelBinding { number, peer, expiry }))
    }
    &&& perms_granted_rel(a.permissions@, b.permissions@, peer.ip, expiry)
}

impl Allocation {
    /// Some permission of this allocation authorizes `c`'s peer for at
    /// least as long as the binding lives.
    pub open spec fn covered(self, c: ChannelBinding) -> bool {
        exists|j: int|
            0 <= j < self.permissions@.len() && (#[trigger] self.permissions@[j]).peer_ip
                == c.peer.ip && self.permissions@[j].expiry >= c.expiry
    }

    /// One channel binding is acceptable for this allocation.
    pub open spec fn channel_ok(self, c: ChannelBinding) -> bool {
        &&& FIRST_CHANNEL_NUMBER <= c.number <= LAST_CHANNEL_NUMBER
        &&& c.peer.spec_family() == self.family
        &&& c.expiry < u64::MAX
        &&& self.covered(c)
    }

    /// One permission is acceptable for this allocation.
    pub open spec fn permission_ok(self, p: Permission) -> bool {
        &&& p.peer_ip.spec_family() == self.family
        &&& p.expiry < u64::MAX
    }

    /// The allocation's invariants.
    pub open spec fn wf(self) -> bool {
        &&& self.expiry < u64::MAX
        &&& forall|i: int, j: int|
            0 <= i < j < self.channels@.len() ==> self.channels@[i].number
                != self.channels@[j].number && self.channels@[i].peer != self.channels@[j].peer
        &&& forall|i: int|
            0 <= i < self.channels@.len() ==> self.channel_ok(#[trigger] self.channels@[i])
        &&& forall|i: int, j: int|
            0 <= i < j < self.permissions@.len() ==> self.permissions@[i].peer_ip
                != self.permissions@[j].peer_ip
        &&& forall|i: int|
            0 <= i < self.permissions@.len() ==> self.permission_ok(
                #[trigger] self.permissions@[i],
            )
    }

    /// The allocation still lives at time `now`.
    pub open spec fn live(self, now: u64) -> bool {
        self.expiry > now
    }

    /// `ip` holds a permission that has not expired at `now`.
    pub open spec fn permitted(self, ip: IpAddr, now: u64) -> bool {
        exists|j: int|
            0 <= j < self.permissions@.len() && (#[trigger] self.permissions@[j]).peer_ip == ip
                && self.permissions@[j].expiry > now
    }

    /// Some permission names `ip`, expired or not.
    pub open spec fn has_permission_entry(self, ip: IpAddr) -> bool {
        exists|j: int|
            0 <= j < self.permissions@.len() && (#[trigger] self.permissions@[j]).peer_ip == ip
    }

    /// Some channel binding uses `number`.
    pub open spec fn has_channel_number(self, number: u16) -> bool {
        exists|i: int|
            0 <= i < self.channels@.len() && (#[trigger] self.channels@[i]).number == number
    }

    /// Some channel binding names `peer`.
    pub open spec fn has_channel_peer(self, peer: SocketAddr) -> bool {
        exists|i: int|
            0 <= i < self.channels@.len() && (#[trigger] self.channels@[i]).peer == peer
    }

    /// `number` is bound to `peer` and the binding has not expired at `now`.
    pub open spec fn channel_bound_to(self, number: u16, peer: SocketAddr, now: u64) -> bool {
        exists|i: int|
            0 <= i < self.channels@.len() && (#[trigger] self.channels@[i]).number == number
                && self.channels@[i].peer == peer && self.channels@[i].expiry > now
    }

    /// The earliest deadline among the allocation itself, its channels and
    /// its permissions.  Strictly below `u64::MAX` whenever `wf` holds.
    pub open spec fn min_expiry(self) -> u64 {
        min64(
            self.expiry,
            min64(
                channels_min_expiry(self.channels@),
                permissions_min_expiry(self.permissions@),
            ),
        )
    }

    /// The index of the permission entry for `ip`, if one exists.
    pub fn find_permission(&self, ip: IpAddr) -> (r: Option<usize>)
        ensures
            match r {
                Some(i) => i < self.permissions@.len() && self.permissions@[i as int].peer_ip
                    == ip,
                None => forall|j: int|
                    0 <= j < self.permissions@.len() ==> (#[trigger] self.permissions@[j]).peer_ip
                        != ip,
            },
    {
        let mut i: usize = 0;
        while i < self.permissions.len()
            invariant
                i <= self.permissions@.len(),
                forall|j: int|
                    0 <= j < i ==> (#[trigger] self.permissions@[j]).peer_ip != ip,
            decreases self.permissions@.len() - i,
        {
            if self.permissions[i].peer_ip == ip {
                return Some(i);
            }
            i = i + 1;
        }
        None
    }

    /// Whether `ip` is permitted at time `now`.
    pub fn has_unexpired_permission(&self, ip: IpAddr, now: u64) -> (r: bool)
        ensures
            r == self.permitted(ip, now),
    {
        let mut i: usize = 0;
        while i < self.permissions.len()
            invariant
                i <= self.permissions@.len(),
                forall|j: int|
                    0 <= j < i ==> !((#[trigger] self.permissions@[j]).peer_ip == ip
                        && self.permissions@[j].expiry > now),
            decreases self.permissions@.len() - i,
        {
            if self.permissions[i].peer_ip == ip && self.permissions[i].expiry > now {
                return true;
            }
            i = i + 1;
        }
        false
    }

    /// The index of the binding that uses `number`, if any.
    pub fn find_channel_by_number(&self, number: u16) -> (r: Option<usize>)
        ensures
            match r {
                Some(i) => i < self.channels@.len() && self.channels@[i as int].number == number,
                None => !self.has_channel_number(number),
            },
    {
        let mut i: usize = 0;
        while i < self.channels.len()
            invariant
                i <= self.channels@.len(),
                forall|j: int| 0 <= j < i ==> (#[trigger] self.channels@[j]).number != number,
            decreases self.channels@.len() - i,
        {
            if self.channels[i].number == number {
                return Some(i);
            }
            i = i + 1;
        }
        None
    }

    /// The index of the binding that names `peer`, if any.
    pub fn find_channel_by_peer(&self, peer: SocketAddr) -> (r: Option<usize>)
        ensures
            match r {
                Some(i) => i < self.channels@.len() && self.channels@[i as int].peer == peer,
                None => !self.has_channel_peer(peer),
            },
    {
        let mut i: usize = 0;
        while i < self.channels.len()
            invariant
                i <= self.channels@.len(),
                forall|j: int| 0 <= j < i ==> (#[trigger] self.channels@[j]).peer != peer,
            decreases self.channels@.len() - i,
        {
            if self.channels[i].peer == peer {
                return Some(i);
            }
            i = i + 1;
        }
        None
    }

    /// Install or refresh the permission for `ip` so that it lasts at
    /// least until `until`.  An existing entry's deadline never shrinks.
    pub fn grant_permission(&mut self, ip: IpAddr, until: u64)
        requires
            old(self).wf(),
            ip.spec_family() == old(self).family,
            until < u64::MAX,
        ensures
            final(self).wf(),
            final(self).id == old(self).id,
            final(self).family == old(self).family,
            final(self).relay_port == old(self).relay_port,
            final(self).client_addr == old(self).client_addr,
            final(self).expiry == old(self).expiry,
            final(self).channels@ == old(self).channels@,
            old(self).has_permission_entry(ip) ==> exists|i: int|
                0 <= i < old(self).permissions@.len()
                    && (#[trigger] old(self).permissions@[i]).peer_ip == ip
                    && final(self).permissions@ == old(self).permissions@.update(
                    i,
                    (Permission {
                        peer_ip: ip,
                        expiry: max64(old(self).permissions@[i].expiry, until),
                    }),
                ),
            !old(self).has_permission_entry(ip) ==> final(self).permissions@
                == old(self).permissions@.push((Permission { peer_ip: ip, expiry: until })),
            // the granted peer is covered at least until `until`
            exists|j: int|
                0 <= j < final(self).permissions@.len()
                    && (#[trigger] final(self).permissions@[j]).peer_ip == ip
                    && final(self).permissions@[j].expiry >= until,
            // no permission's deadline shrinks
            forall|k: int|
                0 <= k < old(self).permissions@.len() ==> exists|j: int|
                    0 <= j < final(self).permissions@.len()
                        && (#[trigger] final(self).permissions@[j]).peer_ip
                            == (#[trigger] old(self).permissions@[k]).peer_ip
                        && final(self).permissions@[j].expiry >= old(self).permissions@[k].expiry,
            granted_rel(*old(self), *final(self), ip, until),
    {
        let ghost pre = *self;
        match self.find_permission(ip) {
            Some(i) => {
                let expiry = if self.permissions[i].expiry >= until {
                    self.permissions[i].expiry
                } else {
                    until
                };
                self.permissions[i] = Permission { peer_ip: ip, expiry };
                proof {
                    assert(self.permissions@ == pre.permissions@.update(
                        i as int,
                        (Permission {
                            peer_ip: ip,
                            expiry: max64(pre.permissions@[i as int].expiry, until),
                        }),
                    ));
                    assert forall|c: ChannelBinding| pre.covered(c) implies self.covered(c) by {
                        let j = choose|j: int|
                            0 <= j < pre.permissions@.len() && (
                            #[trigger] pre.permissions@[j]).peer_ip == c.peer.ip
                                && pre.permissions@[j].expiry >= c.expiry;
                        assert(self.permissions@[j].peer_ip == c.peer.ip
                            && self.permissions@[j].expiry >= c.expiry);
                    }
                    assert forall|k: int| 0 <= k < self.channels@.len() implies self.channel_ok(
                        #[trigger] self.channels@[k],
                    ) by {
                        assert(pre.channel_ok(pre.channels@[k]));
                    }
                    assert forall|k: int|
                        0 <= k < pre.permissions@.len() implies exists|j: int|
                        0 <= j < self.permissions@.len()
                            && (#[trigger] self.permissions@[j]).peer_ip == (
                        #[trigger] pre.permissions@[k]).peer_ip && self.permissions@[j].expiry
                            >= pre.permissions@[k].expiry by {
                        assert(self.permissions@[k].peer_ip == pre.permissions@[k].peer_ip
                            && self.permissions@[k].expiry >= pre.permissions@[k].expiry);
                    }
                }
            },
            None => {
                self.permissions.push(Permission { peer_ip: ip, expiry: until });
                proof {
                    assert forall|c: ChannelBinding| pre.covered(c) implies self.covered(c) by {
                        let j = choose|j: int|
                            0 <= j < pre.permissions@.len() && (
                            #[trigger] pre.permissions@[j]).peer_ip == c.peer.ip
                                && pre.permissions@[j].expiry >= c.expiry;
                        assert(self.permissions@[j].peer_ip == c.peer.ip
                            && self.permissions@[j].expiry >= c.expiry);
                    }
                    assert forall|k: int| 0 <= k < self.channels@.len() implies self.channel_ok(
                        #[trigger] self.channels@[k],
                    ) by {
                        assert(pre.channel_ok(pre.channels@[k]));
                    }
                    let n = pre.permissions@.len() as int;
                    assert(self.permissions@[n].peer_ip == ip);
                    assert forall|k: int|
                        0 <= k < pre.permissions@.len() implies exists|j: int|
                        0 <= j < self.permissions@.len()
                            && (#[trigger] self.permissions@[j]).peer_ip == (
                        #[trigger] pre.permissions@[k]).peer_ip && self.permissions@[j].expiry
                            >= pre.permissions@[k].expiry by {
                        assert(self.permissions@[k].peer_ip == pre.permissions@[k].peer_ip
                            && self.permissions@[k].expiry >= pre.permissions@[k].expiry);
                    }
                }
            },
        }
    }

    /// Install or refresh the binding of `number` to `peer` and grant the
    /// peer's permission for at least the binding's lifetime, so that a
    /// binding never outlives the permission that authorizes it.
    ///
    /// The caller has already ruled conflicts out: the number is unused or
    /// bound to this very peer, and the peer is unbound or bound to this
    /// very number.
    pub fn bind_channel(&mut self, number: u16, peer: SocketAddr, now: u64)
        requires
            old(self).wf(),
            FIRST_CHANNEL_NUMBER <= number <= LAST_CHANNEL_NUMBER,
            peer.spec_family() == old(self).family,
            now < u64::MAX - CHANNEL_LIFETIME,
            forall|i: int|
                0 <= i < old(self).channels@.len() ==> ((#[trigger] old(
                    self,
                ).channels@[i]).number == number ==> old(self).channels@[i].peer == peer),
            forall|i: int|
                0 <= i < old(self).channels@.len() ==> ((#[trigger] old(self).channels@[i]).peer
                    == peer ==> old(self).channels@[i].number == number),
        ensures
            final(self).wf(),
            bound_rel(*old(self), *final(self), number, peer, now),
    {
        let ghost pre = *self;
        let expiry = now + CHANNEL_LIFETIME;
        self.grant_permission(peer.ip, expiry);
        let ghost mid = *self;
        let binding = ChannelBinding { number, peer, expiry };
        match self.find_channel_by_number(number) {
            Some(ci) => {
                self.channels[ci] = binding;
                proof {
                    assert(self.channels@ == mid.channels@.update(ci as int, binding));
                }
            },
            None => {
                self.channels.push(binding);
            },
        }
        proof {
            // every untouched binding keeps its cover: permissions are the
            // ones `grant_permission` left, which never shrink
            assert forall|i: int|
                0 <= i < self.channels@.len() implies self.channel_ok(
                #[trigger] self.channels@[i],
            ) by {
                if self.channels@[i] == binding {
                    assert(exists|j: int|
                        0 <= j < self.permissions@.len()
                            && (#[trigger] self.permissions@[j]).peer_ip == peer.ip
                            && self.permissions@[j].expiry >= expiry);
                } else {
                    assert(self.channels@[i] == mid.channels@[i]);
                    assert(mid.channel_ok(mid.channels@[i]));
                }
            }
            assert forall|i: int, j: int|
                0 <= i < j < self.channels@.len() implies self.channels@[i].number
                != self.channels@[j].number && self.channels@[i].peer
                != self.channels@[j].peer by {
                if i < mid.channels@.len() && j < mid.channels@.len() {
                    if self.channels@[i] == binding && self.channels@[j] == mid.channels@[j] {
                        assert(mid.channels@[i].number == number);
                        assert(mid.channels@[i].peer == peer);
                    }
                    if self.channels@[j] == binding && self.channels@[i] == mid.channels@[i] {
                        assert(mid.channels@[j].number == number);
                        assert(mid.channels@[j].peer == peer);
                    }
                } else {
                    // `j` indexes a pushed binding: no existing number or
                    // peer collides with it
                    assert(self.channels@[i] == mid.channels@[i]);
                }
            }
            assert(self.wf());
            assert(bound_rel(pre, *self, number, peer, now));
        }
    }

    /// Drop every channel binding and permission that has expired at `now`.
    pub fn prune(&mut self, now: u64)
        requires
            old(self).wf(),
        ensures
            final(self).wf(),
            final(self).id == old(self).id,
            final(self).family == old(self).family,
            final(self).relay_port == old(self).relay_port,
            final(self).client_addr == old(self).client_addr,
            final(self).expiry == old(self).expiry,
            final(self).channels@ == kept(
                old(self).channels@,
                |c: ChannelBinding| c.expiry > now,
            ),
            final(self).permissions@ == kept(
                old(self).permissions@,
                |p: Permission| p.expiry > now,
            ),
    {
        let ghost pre = *self;
        let ghost chan_pred = |c: ChannelBinding| c.expiry > now;
        let ghost perm_pred = |p: Permission| p.expiry > now;

        let mut new_channels: Vec<ChannelBinding> = Vec::new();
        let mut i: usize = 0;
        while i < self.channels.len()
            invariant
                i <= self.channels@.len(),
                self.channels@ == pre.channels@,
                chan_pred == (|c: ChannelBinding| c.expiry > now),
                new_channels@ == kept(pre.channels@.subrange(0, i as int), chan_pred),
            decreases self.channels@.len() - i,
        {
            let c = self.channels[i];
            proof {
                assert(pre.channels@.subrange(0, i as int + 1) =~= pre.channels@.subrange(
                    0,
                    i as int,
                ).push(c));
                lemma_kept_push(pre.channels@.subrange(0, i as int), chan_pred, c);
            }
            if c.expiry > now {
                new_channels.push(c);
            }
            i = i + 1;
        }

        let mut new_permissions: Vec<Permission> = Vec::new();
        let mut k: usize = 0;
        while k < self.permissions.len()
            invariant
                k <= self.permissions@.len(),
                self.permissions@ == pre.permissions@,
                perm_pred == (|p: Permission| p.expiry > now),
                new_permissions@ == kept(pre.permissions@.subrange(0, k as int), perm_pred),
            decreases self.permissions@.len() - k,
        {
            let p = self.permissions[k];
            proof {
                assert(pre.permissions@.subrange(0, k as int + 1) =~= pre.permissions@.subrange(
                    0,
                    k as int,
                ).push(p));
                lemma_kept_push(pre.permissions@.subrange(0, k as int), perm_pred, p);
            }
            if p.expiry > now {
                new_permissions.push(p);
            }
            k = k + 1;
        }

        self.channels = new_channels;
        self.permissions = new_permissions;

        proof {
            assert(pre.channels@.subrange(0, pre.channels@.len() as int) =~= pre.channels@);
            assert(pre.permissions@.subrange(0, pre.permissions@.len() as int)
                =~= pre.permissions@);
            self.lemma_prune_preserves_wf(pre, now);
        }
    }

    /// Pruning keeps the allocation well formed: a binding that survives
    /// has an expiry above `now`, so its covering permission survives too.
    proof fn lemma_prune_preserves_wf(self, pre: Allocation, now: u64)
        requires
            pre.wf(),
            self.id == pre.id,
            self.family == pre.family,
            self.relay_port == pre.relay_port,
            self.client_addr == pre.client_addr,
            self.expiry == pre.expiry,
            self.channels@ == kept(pre.channels@, |c: ChannelBinding| c.expiry > now),
            self.permissions@ == kept(pre.permissions@, |p: Permission| p.expiry > now),
        ensures
            self.wf(),
    {
        let chan_pred = |c: ChannelBinding| c.expiry > now;
        let perm_pred = |p: Permission| p.expiry > now;
        lemma_kept_membership(pre.channels@, chan_pred);
        lemma_kept_membership(pre.permissions@, perm_pred);
        lemma_kept_distinct_by(pre.channels@, chan_pred, |c: ChannelBinding| c.number);
        lemma_kept_distinct_by(pre.channels@, chan_pred, |c: ChannelBinding| c.peer);
        lemma_kept_distinct_by(pre.permissions@, perm_pred, |p: Permission| p.peer_ip);
        assert forall|i: int, j: int| 0 <= i < j < self.channels@.len() implies self.channels@[i].number
            != self.channels@[j].number && self.channels@[i].peer != self.channels@[j].peer by {
            let key_n = |c: ChannelBinding| c.number;
            let key_p = |c: ChannelBinding| c.peer;
            assert(key_n(self.channels@[i]) != key_n(self.channels@[j]));
            assert(key_p(self.channels@[i]) != key_p(self.channels@[j]));
        }
        assert forall|i: int| 0 <= i < self.channels@.len() implies self.channel_ok(
            #[trigger] self.channels@[i],
        ) by {
            let c = self.channels@[i];
            lemma_kept_source(pre.channels@, chan_pred, i);
            let m = choose|m: int| 0 <= m < pre.channels@.len() && pre.channels@[m] == c;
            assert(pre.channel_ok(pre.channels@[m]));
            let w = choose|w: int|
                0 <= w < pre.permissions@.len() && (#[trigger] pre.permissions@[w]).peer_ip
                    == c.peer.ip && pre.permissions@[w].expiry >= c.expiry;
            assert(perm_pred(pre.permissions@[w]));
            assert(pre.permissions@.contains(pre.permissions@[w]));
            assert(self.permissions@.contains(pre.permissions@[w]));
            let j = choose|j: int|
                0 <= j < self.permissions@.len() && self.permissions@[j] == pre.permissions@[w];
            assert(self.permissions@[j].peer_ip == c.peer.ip && self.permissions@[j].expiry
                >= c.expiry);
        }
        assert forall|i: int, j: int| 0 <= i < j < self.permissions@.len() implies self.permissions@[i].peer_ip
            != self.permissions@[j].peer_ip by {
            let key = |p: Permission| p.peer_ip;
            assert(key(self.permissions@[i]) != key(self.permissions@[j]));
        }
        assert forall|i: int| 0 <= i < self.permissions@.len() implies self.permission_ok(
            #[trigger] self.permissions@[i],
        ) by {
            lemma_kept_source(pre.permissions@, perm_pred, i);
            let m = choose|m: int|
                0 <= m < pre.permissions@.len() && pre.permissions@[m] == self.permissions@[i];
            assert(pre.permission_ok(pre.permissions@[m]));
        }
    }

    /// The earliest deadline carried by this allocation.
    pub fn earliest_expiry(&self) -> (r: u64)
        ensures
            r == self.min_expiry(),
    {
        let mut acc: u64 = self.expiry;
        let mut i: usize = 0;
        while i < self.channels.len()
            invariant
                i <= self.channels@.len(),
                acc == min64(
                    self.expiry,
                    channels_min_expiry(self.channels@.subrange(0, i as int)),
                ),
            decreases self.channels@.len() - i,
        {
            let c = self.channels[i];
            proof {
                assert(self.channels@.subrange(0, i as int + 1) =~= self.channels@.subrange(
                    0,
                    i as int,
                ).push(c));
                lemma_channels_min_push(self.channels@.subrange(0, i as int), c);
            }
            if c.expiry < acc {
                acc = c.expiry;
            }
            i = i + 1;
        }
        proof {
            assert(self.channels@.subrange(0, self.channels@.len() as int) =~= self.channels@);
        }
        let mut k: usize = 0;
        while k < self.permissions.len()
            invariant
                k <= self.permissions@.len(),
                acc == min64(
                    min64(self.expiry, channels_min_expiry(self.channels@)),
                    permissions_min_expiry(self.permissions@.subrange(0, k as int)),
                ),
            decreases self.permissions@.len() - k,
        {
            let p = self.permissions[k];
            proof {
                assert(self.permissions@.subrange(0, k as int + 1) =~= self.permissions@.subrange(
                    0,
                    k as int,
                ).push(p));
                lemma_permissions_min_push(self.permissions@.subrange(0, k as int), p);
            }
            if p.expiry < acc {
                acc = p.expiry;
            }
            k = k + 1;
        }
        proof {
            assert(self.permissions@.subrange(0, self.permissions@.len() as int)
                =~= self.permissions@);
        }
        acc
    }
}

} // verus!
