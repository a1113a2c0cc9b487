//! The library's laws: properties of the server that hold in every
//! reachable state, and algebraic facts about repeated requests, stated
//! and proved once for all inputs.

use vstd::prelude::*;
use crate::addr::{AddressFamily, SocketAddr};
use crate::allocation::{Allocation, AllocationId, bound_rel, granted_rel, CHANNEL_LIFETIME};
use crate::command::Command;
use crate::message::{ClientMessage, Message, TransactionId};
use crate::seq_util::{kept, count_matching, lemma_kept_push};
use crate::server::{Server, allocations_min, lemma_allocations_min_le,
    lemma_allocations_min_witness, has_allocation_entry, creates_for, frees_for, client_step,
    send_step, channel_data_step, first_client_family_index, can_channel_relay,
    spec_has_client_family, refresh_step, granted_lifetime, auth_passes, has_client_allocation,
    expiry_set_rel};
use crate::allocation::lemma_channels_min_le;
use crate::allocation::lemma_permissions_min_le;

verus! {

/// The command is a message that answers the transaction `tid`.
pub open spec fn answers_tid(c: Command, tid: TransactionId) -> bool {
    match c {
        Command::SendMessage { payload, .. } => payload.answers(tid),
        _ => false,
    }
}

/// The transaction a client message opens, if it expects an answer.
pub open spec fn request_tid(m: ClientMessage) -> Option<TransactionId> {
    match m {
        ClientMessage::Binding { tid } => Some(tid),
        ClientMessage::Allocate { tid, .. } => Some(tid),
        ClientMessage::Refresh { tid, .. } => Some(tid),
        ClientMessage::CreatePermission { tid, .. } => Some(tid),
        ClientMessage::ChannelBind { tid, .. } => Some(tid),
        ClientMessage::SendIndication { .. } => None,
        ClientMessage::ChannelData { .. } => None,
    }
}

/// No element satisfies the predicate, so none is kept.
proof fn lemma_kept_none<A>(s: Seq<A>, pred: spec_fn(A) -> bool)
    requires
        forall|i: int| 0 <= i < s.len() ==> !pred(#[trigger] s[i]),
    ensures
        kept(s, pred) =~= Seq::<A>::empty(),
    decreases s.len(),
{
    if s.len() > 0 {
        assert(forall|i: int|
            0 <= i < s.drop_last().len() ==> !pred(#[trigger] s.drop_last()[i]));
        lemma_kept_none(s.drop_last(), pred);
    }
}

/// Every channel binding's peer holds a permission that has not expired
/// while the binding itself has not: a bound channel is always backed by
/// a live permission on the same allocation.
pub proof fn lemma_channel_peer_is_permitted(s: Server, i: int, ci: int, now: u64)
    requires
        s.wf(),
        0 <= i < s.allocations@.len(),
        0 <= ci < s.allocations@[i].channels@.len(),
        s.allocations@[i].channels@[ci].expiry > now,
    ensures
        s.allocations@[i].permitted(s.allocations@[i].channels@[ci].peer.ip, now),
{
    let a = s.allocations@[i];
    assert(s.allocation_entry_ok(a));
    assert(a.channel_ok(a.channels@[ci]));
    let j = choose|j: int|
        0 <= j < a.permissions@.len() && (#[trigger] a.permissions@[j]).peer_ip
            == a.channels@[ci].peer.ip && a.permissions@[j].expiry >= a.channels@[ci].expiry;
    assert(a.permissions@[j].expiry > now);
}

/// No two live allocations share a relay port and a family.
pub proof fn lemma_relay_ports_unique(s: Server, i: int, j: int)
    requires
        s.wf(),
        0 <= i < s.allocations@.len(),
        0 <= j < s.allocations@.len(),
        i != j,
        s.allocations@[i].family == s.allocations@[j].family,
    ensures
        s.allocations@[i].relay_port != s.allocations@[j].relay_port,
{
}

/// `next_deadline` is exactly the least expiry over every expirable
/// object — allocations, channel bindings and permissions — and is
/// `None` exactly when none exists.
pub proof fn lemma_next_deadline_is_min(s: Server)
    requires
        s.wf(),
    ensures
        s.next_deadline is None <==> s.allocations@.len() == 0,
        s.next_deadline matches Some(d) ==> {
            &&& forall|i: int|
                0 <= i < s.allocations@.len() ==> d <= (#[trigger] s.allocations@[i]).expiry
            &&& forall|i: int, ci: int|
                0 <= i < s.allocations@.len() && 0 <= ci < s.allocations@[i].channels@.len()
                    ==> d <= (#[trigger] s.allocations@[i].channels@[ci]).expiry
            &&& forall|i: int, pi: int|
                0 <= i < s.allocations@.len() && 0 <= pi
                    < s.allocations@[i].permissions@.len() ==> d <= (
                #[trigger] s.allocations@[i].permissions@[pi]).expiry
            &&& exists|i: int|
                0 <= i < s.allocations@.len() && (#[trigger] s.allocations@[i]).min_expiry()
                    == d
        },
{
    if s.allocations@.len() > 0 {
        let d = allocations_min(s.allocations@);
        assert(s.next_deadline == Some(d));
        assert forall|i: int| 0 <= i < s.allocations@.len() implies d <= (
        #[trigger] s.allocations@[i]).expiry by {
            lemma_allocations_min_le(s.allocations@, i);
        }
        assert forall|i: int, ci: int|
            0 <= i < s.allocations@.len() && 0 <= ci
                < s.allocations@[i].channels@.len() implies d <= (
        #[trigger] s.allocations@[i].channels@[ci]).expiry by {
            lemma_allocations_min_le(s.allocations@, i);
            lemma_channels_min_le(s.allocations@[i].channels@, ci);
        }
        assert forall|i: int, pi: int|
            0 <= i < s.allocations@.len() && 0 <= pi
                < s.allocations@[i].permissions@.len() implies d <= (
        #[trigger] s.allocations@[i].permissions@[pi]).expiry by {
            lemma_allocations_min_le(s.allocations@, i);
            lemma_permissions_min_le(s.allocations@[i].permissions@, pi);
        }
        assert(s.allocation_entry_ok(s.allocations@[0]));
        lemma_allocations_min_le(s.allocations@, 0);
        lemma_allocations_min_witness(s.allocations@);
    }
}

/// Allocations are released exactly once: for every `(id, family)` the
/// history holds at most one `CreateAllocation`, never a `FreeAllocation`
/// without its creation, and — once the allocation has left the table —
/// exactly one `FreeAllocation`.
pub proof fn lemma_allocation_released_exactly_once(
    s: Server,
    id: AllocationId,
    family: AddressFamily,
)
    requires
        s.wf(),
    ensures
        creates_for(s.emitted@, id, family) <= 1,
        frees_for(s.emitted@, id, family) <= creates_for(s.emitted@, id, family),
        has_allocation_entry(s.allocations@, id, family) <==> (creates_for(
            s.emitted@,
            id,
            family,
        ) == 1 && frees_for(s.emitted@, id, family) == 0),
        (creates_for(s.emitted@, id, family) == 1 && !has_allocation_entry(
            s.allocations@,
            id,
            family,
        )) ==> frees_for(s.emitted@, id, family) == 1,
{
    assert(creates_for(s.emitted@, id, family) <= 1);
}

/// Every request that opens a transaction is answered by exactly one
/// response in the batch its handling appends, and that response is the
/// batch's last command.
pub proof fn lemma_one_response_per_request(
    pre: Server,
    post: Server,
    message: ClientMessage,
    sender: SocketAddr,
    now: u64,
    tid: TransactionId,
)
    requires
        pre.wf(),
        client_step(pre, post, message, sender, now),
        request_tid(message) == Some(tid),
    ensures
        post.pending@.len() > pre.pending@.len(),
        post.pending@.subrange(0, pre.pending@.len() as int) == pre.pending@,
        count_matching(
            post.pending@.skip(pre.pending@.len() as int),
            |c: Command| answers_tid(c, tid),
        ) == 1,
        answers_tid(post.pending@.last(), tid),
{
    let pred = |c: Command| answers_tid(c, tid);
    let n = pre.pending@.len() as int;
    let delta = post.pending@.skip(n);
    match message {
        ClientMessage::Binding { tid: t } => {
            assert(post.pending@.subrange(0, n) =~= pre.pending@);
            lemma_count_one_tail(pre.pending@, post.pending@, pred);
        },
        ClientMessage::Allocate { tid: t, credentials, requested_transport, lifetime } => {
            assert(post.pending@.subrange(0, n) =~= pre.pending@);
            lemma_count_one_tail(pre.pending@, post.pending@, pred);
        },
        ClientMessage::Refresh { tid: t, credentials, lifetime } => {
            if auth_passes(pre, credentials, now) && has_client_allocation(
                pre.allocations@,
                sender,
            ) && lifetime == Some(0u32) {
                let frees = kept(
                    pre.allocations@,
                    |a: Allocation| a.client_addr == sender,
                ).map_values(|a: Allocation| crate::server::free_command(a));
                assert(post.pending@.subrange(0, n) =~= pre.pending@);
                assert forall|ii: int|
                    n <= ii < post.pending@.len() - 1 implies !pred(
                    #[trigger] post.pending@[ii],
                ) by {
                    assert(post.pending@[ii] == frees[ii - n]);
                }
            } else {
                assert(post.pending@.subrange(0, n) =~= pre.pending@);
            }
            lemma_count_one_tail(pre.pending@, post.pending@, pred);
        },
        ClientMessage::CreatePermission { tid: t, credentials, peer } => {
            assert(post.pending@.subrange(0, n) =~= pre.pending@);
            lemma_count_one_tail(pre.pending@, post.pending@, pred);
        },
        ClientMessage::ChannelBind { tid: t, credentials, channel, peer } => {
            assert(post.pending@.subrange(0, n) =~= pre.pending@);
            lemma_count_one_tail(pre.pending@, post.pending@, pred);
        },
        ClientMessage::SendIndication { .. } => {
            assert(false);
        },
        ClientMessage::ChannelData { .. } => {
            assert(false);
        },
    }
}

/// The handlers append their commands so that only the final one is a
/// message to the client: counting matches on the appended tail gives one
/// exactly when the last command matches and no earlier one does.
proof fn lemma_count_one_tail(pre: Seq<Command>, post: Seq<Command>, pred: spec_fn(
    Command,
) -> bool)
    requires
        post.len() > pre.len(),
        post.subrange(0, pre.len() as int) == pre,
        pred(post.last()),
        forall|i: int| pre.len() <= i < post.len() - 1 ==> !pred(#[trigger] post[i]),
    ensures
        count_matching(post.skip(pre.len() as int), pred) == 1,
{
    let delta = post.skip(pre.len() as int);
    assert(delta.last() == post.last());
    assert(forall|i: int|
        0 <= i < delta.drop_last().len() ==> !pred(#[trigger] delta.drop_last()[i]));
    lemma_kept_none(delta.drop_last(), pred);
    assert(delta =~= delta.drop_last().push(delta.last()));
    lemma_kept_push(delta.drop_last(), pred, delta.last());
}

/// Refreshing twice with the same lifetime leaves every allocation of the
/// client with the expiry the second call computes, independent of what
/// the first call did.
pub proof fn lemma_refresh_refresh(
    s0: Server,
    s1: Server,
    s2: Server,
    tid1: TransactionId,
    tid2: TransactionId,
    creds1: Option<crate::message::Credentials>,
    creds2: Option<crate::message::Credentials>,
    lifetime: u32,
    sender: SocketAddr,
    now1: u64,
    now2: u64,
)
    requires
        s0.wf(),
        crate::server::time_ok(now1),
        crate::server::time_ok(now2),
        lifetime != 0,
        auth_passes(s0, creds1, now1),
        auth_passes(s1, creds2, now2),
        has_client_allocation(s0.allocations@, sender),
        refresh_step(s0, s1, tid1, creds1, Some(lifetime), sender, now1),
        refresh_step(s1, s2, tid2, creds2, Some(lifetime), sender, now2),
    ensures
        forall|i: int|
            0 <= i < s2.allocations@.len() && (#[trigger] s2.allocations@[i]).client_addr
                == sender ==> s2.allocations@[i].expiry == now2 + granted_lifetime(
                Some(lifetime),
            ),
{
    assert(has_client_allocation(s1.allocations@, sender)) by {
        let w = choose|w: int|
            0 <= w < s0.allocations@.len() && (#[trigger] s0.allocations@[w]).client_addr
                == sender;
        assert(s1.allocations@[w].client_addr == sender);
    }
    assert forall|i: int|
        0 <= i < s2.allocations@.len() && (#[trigger] s2.allocations@[i]).client_addr
            == sender implies s2.allocations@[i].expiry == now2 + granted_lifetime(
        Some(lifetime),
    ) by {
        if s1.allocations@[i].client_addr == sender {
            assert(expiry_set_rel(
                s1.allocations@[i],
                s2.allocations@[i],
                (now2 + granted_lifetime(Some(lifetime))) as u64,
            ));
        } else {
            assert(s2.allocations@[i] == s1.allocations@[i]);
        }
    }
}

/// Granting a permission to a peer that already holds one refreshes the
/// entry in place: the table gains no duplicate and the deadline never
/// shrinks.
pub proof fn lemma_permission_refresh_no_duplicate(
    a: Allocation,
    b: Allocation,
    ip: crate::addr::IpAddr,
    until: u64,
)
    requires
        a.wf(),
        a.has_permission_entry(ip),
        granted_rel(a, b, ip, until),
    ensures
        b.permissions@.len() == a.permissions@.len(),
        exists|j: int|
            0 <= j < b.permissions@.len() && (#[trigger] b.permissions@[j]).peer_ip == ip
                && b.permissions@[j].expiry >= until,
        forall|j: int|
            0 <= j < a.permissions@.len() ==> (#[trigger] b.permissions@[j]).expiry
                >= a.permissions@[j].expiry,
{
    let k = choose|k: int|
        0 <= k < a.permissions@.len() && (#[trigger] a.permissions@[k]).peer_ip == ip
            && b.permissions@ == a.permissions@.update(
            k,
            (crate::allocation::Permission {
                peer_ip: ip,
                expiry: crate::allocation::max64(a.permissions@[k].expiry, until),
            }),
        );
    assert(b.permissions@[k].peer_ip == ip && b.permissions@[k].expiry >= until);
}

/// Binding the same channel to the same peer twice at one instant is
/// idempotent: the second bind changes nothing.
pub proof fn lemma_channel_bind_idempotent(
    a: Allocation,
    b: Allocation,
    c: Allocation,
    number: u16,
    peer: SocketAddr,
    now: u64,
)
    requires
        a.wf(),
        b.wf(),
        bound_rel(a, b, number, peer, now),
        bound_rel(b, c, number, peer, now),
    ensures
        c.channels@ == b.channels@,
        c.permissions@ == b.permissions@,
{
    let expiry = (now + CHANNEL_LIFETIME) as u64;
    // after the first bind, `number` is bound to `peer` with the full
    // lifetime, so the second bind updates the entry with its own value
    assert(b.has_channel_number(number)) by {
        if a.has_channel_number(number) {
            let ci = choose|ci: int|
                0 <= ci < a.channels@.len() && (#[trigger] a.channels@[ci]).number == number
                    && b.channels@ == a.channels@.update(
                    ci,
                    (crate::allocation::ChannelBinding { number, peer, expiry }),
                );
            assert(b.channels@[ci].number == number);
        } else {
            assert(b.channels@[a.channels@.len() as int].number == number);
        }
    }
    let ci = choose|ci: int|
        0 <= ci < b.channels@.len() && (#[trigger] b.channels@[ci]).number == number
            && c.channels@ == b.channels@.update(
            ci,
            (crate::allocation::ChannelBinding { number, peer, expiry }),
        );
    assert(b.channels@[ci] == (crate::allocation::ChannelBinding { number, peer, expiry }))
        by {
        if a.has_channel_number(number) {
            let cj = choose|cj: int|
                0 <= cj < a.channels@.len() && (#[trigger] a.channels@[cj]).number == number
                    && b.channels@ == a.channels@.update(
                    cj,
                    (crate::allocation::ChannelBinding { number, peer, expiry }),
                );
            if ci != cj {
                assert(a.channels@[ci].number == number);
                assert(a.channels@[cj].number == number);
            }
        } else {
            let top = a.channels@.len() as int;
            if ci != top {
                assert(a.channels@[ci].number == number);
                assert(!a.has_channel_number(number));
            }
        }
    }
    assert(c.channels@ =~= b.channels@);
    // permissions: the first bind left an entry for the peer with at least
    // the binding's lifetime, so the refresh writes the value back
    assert(b.has_permission_entry(peer.ip)) by {
        if a.has_permission_entry(peer.ip) {
            let k = choose|k: int|
                0 <= k < a.permissions@.len() && (#[trigger] a.permissions@[k]).peer_ip
                    == peer.ip && b.permissions@ == a.permissions@.update(
                    k,
                    (crate::allocation::Permission {
                        peer_ip: peer.ip,
                        expiry: crate::allocation::max64(a.permissions@[k].expiry, expiry),
                    }),
                );
            assert(b.permissions@[k].peer_ip == peer.ip);
        } else {
            assert(b.permissions@[a.permissions@.len() as int].peer_ip == peer.ip);
        }
    }
    let k = choose|k: int|
        0 <= k < b.permissions@.len() && (#[trigger] b.permissions@[k]).peer_ip == peer.ip
            && c.permissions@ == b.permissions@.update(
            k,
            (crate::allocation::Permission {
                peer_ip: peer.ip,
                expiry: crate::allocation::max64(b.permissions@[k].expiry, expiry),
            }),
        );
    assert(b.permissions@[k].expiry >= expiry) by {
        if a.has_permission_entry(peer.ip) {
            let k2 = choose|k2: int|
                0 <= k2 < a.permissions@.len() && (#[trigger] a.permissions@[k2]).peer_ip
                    == peer.ip && b.permissions@ == a.permissions@.update(
                    k2,
                    (crate::allocation::Permission {
                        peer_ip: peer.ip,
                        expiry: crate::allocation::max64(a.permissions@[k2].expiry, expiry),
                    }),
                );
            if k != k2 {
                assert(a.permissions@[k].peer_ip == peer.ip);
                assert(a.permissions@[k2].peer_ip == peer.ip);
            }
        } else {
            let top = a.permissions@.len() as int;
            if k != top {
                assert(a.permissions@[k].peer_ip == peer.ip);
                assert(!a.has_permission_entry(peer.ip));
            }
        }
    }
    assert(c.permissions@ =~= b.permissions@);
}

/// A datagram travels identically through a `Send` indication and through
/// `ChannelData` when the named channel is bound to the same peer: both
/// paths append the same single `ForwardData` command, byte for byte.
pub proof fn lemma_send_and_channel_data_agree(
    pre: Server,
    post_send: Server,
    post_chan: Server,
    peer: SocketAddr,
    number: u16,
    data: Vec<u8>,
    sender: SocketAddr,
    now: u64,
    i: int,
    ci: int,
)
    requires
        pre.wf(),
        first_client_family_index(pre.allocations@, sender, peer.spec_family(), i),
        pre.allocations@[i].live(now),
        pre.allocations@[i].permitted(peer.ip, now),
        0 <= ci < pre.allocations@[i].channels@.len(),
        pre.allocations@[i].channels@[ci].number == number,
        pre.allocations@[i].channels@[ci].peer == peer,
        pre.allocations@[i].channels@[ci].expiry > now,
        forall|j: int|
            0 <= j < i ==> !can_channel_relay(
                #[trigger] pre.allocations@[j],
                sender,
                number,
                now,
            ),
        send_step(pre, post_send, peer, data, sender, now),
        channel_data_step(pre, post_chan, number, data, sender, now),
    ensures
        post_send.pending@.skip(pre.pending@.len() as int) == post_chan.pending@.skip(
            pre.pending@.len() as int,
        ),
        post_send.pending@.last() == (Command::ForwardData {
            id: pre.allocations@[i].id,
            data,
            receiver: peer,
        }),
{
    let s = pre.allocations@;
    assert(spec_has_client_family(s, sender, peer.spec_family()));
    let i1 = choose|i1: int|
        #![trigger s[i1]]
        first_client_family_index(s, sender, peer.spec_family(), i1) && (if s[i1].live(now)
            && s[i1].permitted(peer.ip, now) {
            &&& post_send.pending@ == pre.pending@ + seq![
                (Command::ForwardData { id: s[i1].id, data, receiver: peer }),
            ]
            &&& post_send.emitted@ == pre.emitted@ + seq![
                (Command::ForwardData { id: s[i1].id, data, receiver: peer }),
            ]
            &&& post_send.sends_dropped == pre.sends_dropped
        } else {
            crate::server::silently_dropped(pre, post_send)
        });
    assert(i1 == i) by {
        if i1 < i {
            assert(!(s[i1].client_addr == sender && s[i1].family == peer.spec_family()));
        }
        if i < i1 {
            assert(!(s[i].client_addr == sender && s[i].family == peer.spec_family()));
        }
    }
    assert(can_channel_relay(s[i], sender, number, now));
    let (i2, ci2): (int, int) = choose|i2: int, ci2: int|
        #![trigger s[i2].channels@[ci2]]
        {
            &&& 0 <= i2 < s.len()
            &&& can_channel_relay(s[i2], sender, number, now)
            &&& forall|j: int|
                0 <= j < i2 ==> !can_channel_relay(#[trigger] s[j], sender, number, now)
            &&& 0 <= ci2 < s[i2].channels@.len()
            &&& s[i2].channels@[ci2].number == number
            &&& post_chan.pending@ == pre.pending@ + seq![
                (Command::ForwardData { id: s[i2].id, data, receiver: s[i2].channels@[ci2].peer }),
            ]
            &&& post_chan.emitted@ == pre.emitted@ + seq![
                (Command::ForwardData { id: s[i2].id, data, receiver: s[i2].channels@[ci2].peer }),
            ]
            &&& post_chan.sends_dropped == pre.sends_dropped
        };
    assert(i2 == i) by {
        if i2 < i {
            assert(!can_channel_relay(s[i2], sender, number, now));
        }
        if i < i2 {
            assert(!can_channel_relay(s[i], sender, number, now));
        }
    }
    assert(ci2 == ci) by {
        if ci2 != ci {
            assert(pre.allocation_entry_ok(s[i]));
            assert(s[i].channels@[ci].number == number);
            assert(s[i].channels@[ci2].number == number);
        }
    }
    assert(post_send.pending@.skip(pre.pending@.len() as int) =~= post_chan.pending@.skip(
        pre.pending@.len() as int,
    ));
    assert(post_send.pending@.last() == (Command::ForwardData {
        id: s[i].id,
        data,
        receiver: peer,
    }));
}

} // verus!
