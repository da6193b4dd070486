use vstd::prelude::*;

use crate::net::udp::{Header, Packet, PacketId, SocketError};

verus! {

/// Milliseconds after which a packet that was not acknowledged is sent
/// again.
pub const ACK: u64 = 1500;

/// Milliseconds after which a connection attempt fails and a peer that was
/// not heard from is dropped.
pub const TIMEOUT: u64 = 5000;

/// The handle under which the caller knows a remote address.
pub type Peer = u64;

/// A packet that was sent and waits for its acknowledgement.
#[derive(Debug, PartialEq, Eq)]
pub struct Unacked {
    pub id: PacketId,
    pub destination: Peer,
    pub payload: Vec<u8>,
    /// When the packet was last put on the wire, in milliseconds.
    pub last_sent: u64,
}

/// A message that came in and waits to be fetched.
#[derive(Debug, PartialEq, Eq)]
pub struct Received {
    pub from: Peer,
    pub id: PacketId,
    /// The caller's tag for the kind of message, by which it is fetched.
    pub kind: u8,
    pub payload: Vec<u8>,
}

/// The bookkeeping that makes delivery over lossy datagrams reliable:
/// numbering, keeping what was sent until it is acknowledged, sending it
/// again when the acknowledgement stays out, acknowledging what came in and
/// dropping what came in twice.
pub struct Socket {
    /// The id of the next packet to be sent.
    pub next_id: PacketId,
    pub unacked: Vec<Unacked>,
    /// Every packet that was ever taken in, by sender and id.
    pub ack_send_ids: Vec<(Peer, PacketId)>,
    /// The packets taken in since the last acknowledgement went out.
    pub pending_acks: Vec<(Peer, PacketId)>,
    pub inbox: Vec<Received>,
}

/// Whether a packet last sent at `last_sent` is to be sent again at `now`.
pub open spec fn due(last_sent: u64, now: u64) -> bool {
    now >= last_sent && now - last_sent >= ACK
}

/// Whether something last heard of at `since` has timed out at `now`.
pub open spec fn timed_out(since: u64, now: u64) -> bool {
    now >= since && now - since > TIMEOUT
}

/// The packets of `unacked` that none of `ids` names, in their order.
pub open spec fn without(unacked: Seq<Unacked>, ids: Seq<PacketId>) -> Seq<Unacked> {
    unacked.filter(|u: Unacked| !ids.contains(u.id))
}

/// The messages of `inbox` that come from `peer`, if one is given, and are of
/// the kind `kind`.
pub open spec fn wanted(peer: Option<Peer>, kind: u8) -> spec_fn(Received) -> bool {
    |r: Received|
        r.kind == kind && match peer {
            Some(p) => r.from == p,
            None => true,
        }
}

/// The other messages.
pub open spec fn unwanted(peer: Option<Peer>, kind: u8) -> spec_fn(Received) -> bool {
    |r: Received| !wanted(peer, kind)(r)
}

/// The positions in `unacked` of the packets due at `now`, in rising order.
pub open spec fn due_positions(unacked: Seq<Unacked>, now: u64) -> Seq<usize>
    decreases unacked.len(),
{
    if unacked.len() == 0 {
        Seq::empty()
    } else {
        let rest = due_positions(unacked.drop_last(), now);
        if due(unacked.last().last_sent, now) {
            rest.push((unacked.len() - 1) as usize)
        } else {
            rest
        }
    }
}

/// The packet `u` with the time of its last sending set to `now` if it was
/// due then.
pub open spec fn stamped(u: Unacked, now: u64) -> Unacked {
    if due(u.last_sent, now) {
        Unacked { last_sent: now, ..u }
    } else {
        u
    }
}

/// Every position that `due_positions` lists is the position of a packet
/// that is due, and every packet that is due is listed.
pub proof fn lemma_due_positions(unacked: Seq<Unacked>, now: u64)
    requires
        unacked.len() <= usize::MAX,
    ensures
        forall|j: int|
            0 <= j < due_positions(unacked, now).len() ==> (#[trigger] due_positions(
                unacked,
                now,
            )[j]) < unacked.len() && due(
                unacked[due_positions(unacked, now)[j] as int].last_sent,
                now,
            ),
        forall|i: int|
            0 <= i < unacked.len() && due(unacked[i].last_sent, now) ==> due_positions(
                unacked,
                now,
            ).contains(i as usize),
    decreases unacked.len(),
{
    if unacked.len() > 0 {
        let rest = due_positions(unacked.drop_last(), now);
        lemma_due_positions(unacked.drop_last(), now);
        let all = due_positions(unacked, now);
        assert forall|i: int|
            0 <= i < unacked.len() && due(unacked[i].last_sent, now) implies all.contains(
            i as usize,
        ) by {
            if i < unacked.len() - 1 {
                assert(unacked.drop_last()[i] == unacked[i]);
                assert(rest.contains(i as usize));
                let j = rest.index_of(i as usize);
                assert(all[j] == i as usize);
            } else {
                assert(all[all.len() - 1] == i as usize);
            }
        }
        assert forall|j: int| 0 <= j < all.len() implies (#[trigger] all[j]) < unacked.len()
            && due(unacked[all[j] as int].last_sent, now) by {
            if j < rest.len() {
                assert(all[j] == rest[j]);
                assert(unacked.drop_last()[rest[j] as int] == unacked[rest[j] as int]);
            } else {
                assert(all == rest.push((unacked.len() - 1) as usize));
                assert(all[j] == (unacked.len() - 1) as usize);
            }
        }
    }
}

impl Socket {
    /// Whether the packet `id` from `from` was taken in before.
    pub open spec fn seen(&self, from: Peer, id: PacketId) -> bool {
        self.ack_send_ids@.contains((from, id))
    }

    /// Every packet that waits has an id that was given out, and no id
    /// waits twice.
    pub open spec fn wf(&self) -> bool {
        &&& forall|i: int| 0 <= i < self.unacked@.len()
            ==> (#[trigger] self.unacked@[i]).id < self.next_id
        &&& forall|i: int, j: int|
            0 <= i < j < self.unacked@.len() ==> (#[trigger] self.unacked@[i]).id != (
            #[trigger] self.unacked@[j]).id
    }

    pub fn new() -> (r: Socket)
        ensures
            r.wf(),
            r.next_id == 0,
            r.unacked@.len() == 0,
            r.ack_send_ids@.len() == 0,
            r.pending_acks@.len() == 0,
            r.inbox@.len() == 0,
    {
        Socket {
            next_id: 0,
            unacked: Vec::new(),
            ack_send_ids: Vec::new(),
            pending_acks: Vec::new(),
            inbox: Vec::new(),
        }
    }

    /// Takes a message for `destination`: it gets the next id and is kept
    /// until it is acknowledged. The result is the header under which it
    /// goes out, or nothing once the ids have run out.
    pub fn send(&mut self, destination: Peer, payload: Vec<u8>, now: u64) -> (r: Option<Header>)
        requires
            old(self).wf(),
        ensures
            final(self).wf(),
            final(self).ack_send_ids == old(self).ack_send_ids,
            final(self).pending_acks == old(self).pending_acks,
            final(self).inbox == old(self).inbox,
            match r {
                Some(header) => header.id == old(self).next_id && final(self).next_id == header.id
                    + 1 && final(self).unacked@ == old(self).unacked@.push(
                    Unacked { id: header.id, destination, payload, last_sent: now },
                ),
                None => old(self).next_id == usize::MAX && final(self).next_id == old(self).next_id
                    && final(self).unacked == old(self).unacked,
            },
    {
        if self.next_id == usize::MAX {
            return None;
        }
        let id: PacketId = self.next_id;
        self.next_id = id + 1;
        self.unacked.push(Unacked { id, destination, payload, last_sent: now });
        Some(Header { id })
    }

    /// Finds the packets that wait for longer than `ACK` milliseconds and
    /// marks them as sent at `now`. The result lists their positions among
    /// the waiting packets, in rising order; each is to be put on the wire
    /// again, to the same destination and under the same id.
    pub fn resend_due(&mut self, now: u64) -> (r: Vec<usize>)
        requires
            old(self).wf(),
        ensures
            final(self).wf(),
            final(self).next_id == old(self).next_id,
            final(self).ack_send_ids == old(self).ack_send_ids,
            final(self).pending_acks == old(self).pending_acks,
            final(self).inbox == old(self).inbox,
            r@ == due_positions(old(self).unacked@, now),
            final(self).unacked@.len() == old(self).unacked@.len(),
            forall|i: int|
                0 <= i < old(self).unacked@.len() ==> #[trigger] final(self).unacked@[i] == stamped(
                    old(self).unacked@[i],
                    now,
                ),
    {
        let mut out: Vec<usize> = Vec::new();
        let mut i: usize = 0;
        while i < self.unacked.len()
            invariant
                i <= self.unacked@.len(),
                self.unacked@.len() == old(self).unacked@.len(),
                self.next_id == old(self).next_id,
                self.ack_send_ids == old(self).ack_send_ids,
                self.pending_acks == old(self).pending_acks,
                self.inbox == old(self).inbox,
                out@ == due_positions(old(self).unacked@.take(i as int), now),
                forall|k: int|
                    0 <= k < i
                        ==> #[trigger] self.unacked@[k] == stamped(old(self).unacked@[k], now),
                forall|k: int|
                    i <= k < self.unacked@.len()
                        ==> #[trigger] self.unacked@[k] == old(self).unacked@[k],
            decreases self.unacked@.len() - i,
        {
            proof {
                assert(old(self).unacked@.take(i + 1).drop_last() =~= old(self).unacked@.take(
                    i as int,
                ));
                assert(old(self).unacked@.take(i + 1).last() == old(self).unacked@[i as int]);
            }
            let last_sent: u64 = self.unacked[i].last_sent;
            if now >= last_sent && now - last_sent >= ACK {
                let entry: &mut Unacked = &mut self.unacked[i];
                entry.last_sent = now;
                out.push(i);
            }
            i = i + 1;
        }
        proof {
            assert(old(self).unacked@.take(old(self).unacked@.len() as int) =~= old(self).unacked@);
            assert forall|a: int| 0 <= a < self.unacked@.len() implies (
            #[trigger] self.unacked@[a]).id == old(self).unacked@[a].id by {}
        }
        out
    }

    /// Takes an acknowledgement: every packet that one of `ids` names no
    /// longer waits.
    pub fn receive_ack(&mut self, ids: &[PacketId])
        requires
            old(self).wf(),
        ensures
            final(self).wf(),
            final(self).next_id == old(self).next_id,
            final(self).ack_send_ids == old(self).ack_send_ids,
            final(self).pending_acks == old(self).pending_acks,
            final(self).inbox == old(self).inbox,
            final(self).unacked@ == without(old(self).unacked@, ids@),
            forall|i: int|
                0 <= i < final(self).unacked@.len() ==> !ids@.contains(
                    (#[trigger] final(self).unacked@[i]).id,
                ),
    {
        let mut waiting: Vec<Unacked> = Vec::new();
        std::mem::swap(&mut self.unacked, &mut waiting);
        let ghost all = waiting@;
        let ghost keep = |u: Unacked| !ids@.contains(u.id);
        let ghost total = all.len();
        let count: usize = waiting.len();
        assert(total == count);
        let mut k: usize = 0;
        proof {
            assert(all.take(0).filter(keep) =~= Seq::<Unacked>::empty()) by {
                reveal(Seq::filter);
            }
            assert(all.skip(0) =~= all);
        }
        while waiting.len() > 0
            invariant
                k + waiting@.len() == total,
                total <= usize::MAX,
                total == all.len(),
                all == old(self).unacked@,
                keep == (|u: Unacked| !ids@.contains(u.id)),
                waiting@ == all.skip(k as int),
                self.unacked@ == all.take(k as int).filter(keep),
                self.next_id == old(self).next_id,
                self.ack_send_ids == old(self).ack_send_ids,
                self.pending_acks == old(self).pending_acks,
                self.inbox == old(self).inbox,
            decreases waiting@.len(),
        {
            let entry: Unacked = waiting.remove(0);
            proof {
                assert(entry == all[k as int]);
                assert(waiting@ =~= all.skip(k + 1));
                assert(all.take(k + 1).drop_last() =~= all.take(k as int));
                assert(all.take(k + 1).last() == entry);
                reveal(Seq::filter);
            }
            if !holds_id(ids, entry.id) {
                self.unacked.push(entry);
            }
            k = k + 1;
        }
        proof {
            assert(all.take(total as int) =~= all);
            let kept = all.filter(keep);
            lemma_filter_members(all, keep);
            lemma_filter_keeps_order(all, keep);
            assert forall|i: int| 0 <= i < kept.len() implies (#[trigger] kept[i]).id < self.next_id
                && !ids@.contains(kept[i].id) by {
                assert(all.contains(kept[i]));
                let j = all.index_of(kept[i]);
                assert(all[j].id < old(self).next_id);
            }
        }
    }

    /// Takes a message in. A message that was taken in before, by sender
    /// and id, is dropped; a new one is queued for the caller, noted as seen
    /// and noted for the next acknowledgement. Says whether it was new.
    pub fn receive_message(&mut self, from: Peer, id: PacketId, kind: u8,
        payload: Vec<u8>) -> (fresh: bool)
        ensures
            final(self).next_id == old(self).next_id,
            final(self).unacked == old(self).unacked,
            fresh == !old(self).seen(from, id),
            fresh ==> final(self).inbox@ == old(self).inbox@.push(
                Received { from, id, kind, payload },
            ) && final(self).ack_send_ids@ == old(self).ack_send_ids@.push((from, id))
                && final(self).pending_acks@ == old(self).pending_acks@.push((from, id)),
            !fresh ==> final(self).inbox == old(self).inbox
                && final(self).ack_send_ids == old(self).ack_send_ids
                && final(self).pending_acks == old(self).pending_acks,
            final(self).seen(from, id),
    {
        if holds_pair(&self.ack_send_ids, from, id) {
            return false;
        }
        self.inbox.push(Received { from, id, kind, payload });
        self.ack_send_ids.push((from, id));
        self.pending_acks.push((from, id));
        assert(self.ack_send_ids@[old(self).ack_send_ids@.len() as int] == (from, id));
        true
    }

    /// Makes the acknowledgement that is owed to `peer`: it names every
    /// packet taken in from the peer since the last one, in the order in
    /// which they came; nothing if there is none. The packets of other peers
    /// stay noted.
    pub fn ack(&mut self, peer: Peer) -> (r: Option<Packet<Vec<PacketId>>>)
        ensures
            final(self).next_id == old(self).next_id,
            final(self).unacked == old(self).unacked,
            final(self).ack_send_ids == old(self).ack_send_ids,
            final(self).inbox == old(self).inbox,
            final(self).pending_acks@ == old(self).pending_acks@.filter(
                |e: (Peer, PacketId)| e.0 != peer,
            ),
            match r {
                Some(packet) => packet.header.id == old(self).next_id && packet.message@.len() > 0
                    && packet.message@ == old(self).pending_acks@.filter(
                    |e: (Peer, PacketId)| e.0 == peer,
                ).map_values(|e: (Peer, PacketId)| e.1),
                None => old(self).pending_acks@.filter(|e: (Peer, PacketId)| e.0 == peer).len()
                    == 0,
            },
    {
        let mut pending: Vec<(Peer, PacketId)> = Vec::new();
        std::mem::swap(&mut self.pending_acks, &mut pending);
        let ghost all = pending@;
        let ghost mine = |e: (Peer, PacketId)| e.0 == peer;
        let ghost others = |e: (Peer, PacketId)| e.0 != peer;
        let ghost second = |e: (Peer, PacketId)| e.1;
        let mut ids: Vec<PacketId> = Vec::new();
        let mut k: usize = 0;
        proof {
            reveal(Seq::filter);
            assert(all.take(0).filter(mine) =~= Seq::<(Peer, PacketId)>::empty());
            assert(all.take(0).filter(others) =~= Seq::<(Peer, PacketId)>::empty());
            assert(all.take(0).filter(mine).map_values(second) =~= Seq::<PacketId>::empty());
        }
        while k < pending.len()
            invariant
                k <= pending@.len(),
                pending@ == all,
                all == old(self).pending_acks@,
                mine == (|e: (Peer, PacketId)| e.0 == peer),
                others == (|e: (Peer, PacketId)| e.0 != peer),
                second == (|e: (Peer, PacketId)| e.1),
                ids@ == all.take(k as int).filter(mine).map_values(second),
                self.pending_acks@ == all.take(k as int).filter(others),
                self.next_id == old(self).next_id,
                self.unacked == old(self).unacked,
                self.ack_send_ids == old(self).ack_send_ids,
                self.inbox == old(self).inbox,
            decreases pending@.len() - k,
        {
            let entry: (Peer, PacketId) = pending[k];
            proof {
                assert(all.take(k + 1).drop_last() =~= all.take(k as int));
                assert(all.take(k + 1).last() == entry);
                reveal(Seq::filter);
                let before = all.take(k as int).filter(mine);
                if entry.0 == peer {
                    assert(before.push(entry).map_values(second) =~= before.map_values(second).push(
                        entry.1,
                    ));
                }
            }
            if entry.0 == peer {
                ids.push(entry.1);
            } else {
                self.pending_acks.push(entry);
            }
            k = k + 1;
        }
        proof {
            assert(all.take(all.len() as int) =~= all);
        }
        if ids.len() == 0 {
            None
        } else {
            Some(Packet { header: Header { id: self.next_id }, message: ids })
        }
    }

    /// Hands out the queued messages of the kind `kind`, from `peer` if one
    /// is given, in the order in which they came, and leaves the others
    /// queued in theirs.
    fn take(&mut self, peer: Option<Peer>, kind: u8) -> (r: Vec<Received>)
        ensures
            final(self).next_id == old(self).next_id,
            final(self).unacked == old(self).unacked,
            final(self).ack_send_ids == old(self).ack_send_ids,
            final(self).pending_acks == old(self).pending_acks,
            r@ == old(self).inbox@.filter(wanted(peer, kind)),
            final(self).inbox@ == old(self).inbox@.filter(unwanted(peer, kind)),
    {
        let mut queued: Vec<Received> = Vec::new();
        std::mem::swap(&mut self.inbox, &mut queued);
        let ghost all = queued@;
        let ghost total = all.len();
        let count: usize = queued.len();
        assert(total == count);
        let mut out: Vec<Received> = Vec::new();
        let mut k: usize = 0;
        proof {
            reveal(Seq::filter);
            assert(all.take(0).filter(wanted(peer, kind)) =~= Seq::<Received>::empty());
            assert(all.take(0).filter(unwanted(peer, kind)) =~= Seq::<Received>::empty());
            assert(all.skip(0) =~= all);
        }
        while queued.len() > 0
            invariant
                k + queued@.len() == total,
                total <= usize::MAX,
                total == all.len(),
                all == old(self).inbox@,
                queued@ == all.skip(k as int),
                out@ == all.take(k as int).filter(wanted(peer, kind)),
                self.inbox@ == all.take(k as int).filter(unwanted(peer, kind)),
                self.next_id == old(self).next_id,
                self.unacked == old(self).unacked,
                self.ack_send_ids == old(self).ack_send_ids,
                self.pending_acks == old(self).pending_acks,
            decreases queued@.len(),
        {
            let entry: Received = queued.remove(0);
            proof {
                assert(entry == all[k as int]);
                assert(queued@ =~= all.skip(k + 1));
                assert(all.take(k + 1).drop_last() =~= all.take(k as int));
                assert(all.take(k + 1).last() == entry);
                reveal(Seq::filter);
            }
            let from_peer: bool = match peer {
                Some(p) => entry.from == p,
                None => true,
            };
            if entry.kind == kind && from_peer {
                out.push(entry);
            } else {
                self.inbox.push(entry);
            }
            k = k + 1;
        }
        proof {
            assert(all.take(total as int) =~= all);
        }
        out
    }

    /// Hands out the queued messages of the kind `kind`, in the order in
    /// which they came, and leaves the others queued in theirs.
    pub fn get(&mut self, kind: u8) -> (r: Vec<Received>)
        ensures
            final(self).next_id == old(self).next_id,
            final(self).unacked == old(self).unacked,
            final(self).ack_send_ids == old(self).ack_send_ids,
            final(self).pending_acks == old(self).pending_acks,
            r@ == old(self).inbox@.filter(wanted(None, kind)),
            final(self).inbox@ == old(self).inbox@.filter(unwanted(None, kind)),
    {
        self.take(None, kind)
    }

    /// Hands out the queued messages of the kind `kind` that came from
    /// `peer`, in the order in which they came, and leaves the others queued
    /// in theirs.
    pub fn get_from(&mut self, peer: Peer, kind: u8) -> (r: Vec<Received>)
        ensures
            final(self).next_id == old(self).next_id,
            final(self).unacked == old(self).unacked,
            final(self).ack_send_ids == old(self).ack_send_ids,
            final(self).pending_acks == old(self).pending_acks,
            r@ == old(self).inbox@.filter(wanted(Some(peer), kind)),
            final(self).inbox@ == old(self).inbox@.filter(unwanted(Some(peer), kind)),
    {
        self.take(Some(peer), kind)
    }
}

/// What a filter keeps is a member of what it was given and passes the
/// filter.
proof fn lemma_filter_members<T>(all: Seq<T>, keep: spec_fn(T) -> bool)
    ensures
        forall|i: int|
            0 <= i < all.filter(keep).len() ==> all.contains(#[trigger] all.filter(keep)[i])
                && keep(
                all.filter(keep)[i],
            ),
    decreases all.len(),
{
    reveal(Seq::filter);
    if all.len() > 0 {
        let front = all.drop_last();
        lemma_filter_members(front, keep);
        let kept = all.filter(keep);
        let sub = front.filter(keep);
        assert forall|i: int| 0 <= i < kept.len() implies all.contains(#[trigger] kept[i]) && keep(
            kept[i],
        ) by {
            if i < sub.len() {
                assert(front.contains(sub[i]));
                let a = front.index_of(sub[i]);
                assert(all[a] == sub[i]);
            } else {
                assert(all[all.len() - 1] == kept[i]);
            }
        }
    }
}

/// A filter keeps the order of what it keeps: of two members with
/// different ids, kept at two positions, the one kept first stood first.
proof fn lemma_filter_keeps_order(all: Seq<Unacked>, keep: spec_fn(Unacked) -> bool)
    requires
        forall|i: int, j: int|
            0 <= i < j < all.len() ==> (#[trigger] all[i]).id != (#[trigger] all[j]).id,
    ensures
        forall|i: int, j: int|
            0 <= i < j < all.filter(keep).len() ==> (#[trigger] all.filter(keep)[i]).id != (
            #[trigger] all.filter(keep)[j]).id,
    decreases all.len(),
{
    reveal(Seq::filter);
    if all.len() > 0 {
        let front = all.drop_last();
        lemma_filter_keeps_order(front, keep);
        let kept = all.filter(keep);
        let sub = front.filter(keep);
        lemma_filter_members(front, keep);
        assert forall|i: int, j: int| 0 <= i < j < kept.len() implies (#[trigger] kept[i]).id != (
        #[trigger] kept[j]).id by {
            if j < sub.len() {
            } else {
                assert(kept[j] == all.last());
                assert(front.contains(sub[i]));
                let a = front.index_of(sub[i]);
                assert(all[a] == sub[i]);
            }
        }
    }
}

/// Whether `id` is among `ids`.
fn holds_id(ids: &[PacketId], id: PacketId) -> (r: bool)
    ensures
        r == ids@.contains(id),
{
    let mut i: usize = 0;
    while i < ids.len()
        invariant
            i <= ids@.len(),
            forall|k: int| 0 <= k < i ==> ids@[k] != id,
        decreases ids@.len() - i,
    {
        if ids[i] == id {
            return true;
        }
        i = i + 1;
    }
    false
}

/// Whether the pair is among `pairs`.
fn holds_pair(pairs: &Vec<(Peer, PacketId)>, from: Peer, id: PacketId) -> (r: bool)
    ensures
        r == pairs@.contains((from, id)),
{
    let mut i: usize = 0;
    while i < pairs.len()
        invariant
            i <= pairs@.len(),
            forall|k: int| 0 <= k < i ==> pairs@[k] != (from, id),
        decreases pairs@.len() - i,
    {
        let entry: (Peer, PacketId) = pairs[i];
        if entry.0 == from && entry.1 == id {
            return true;
        }
        i = i + 1;
    }
    false
}

/// A packet that was sent and has not been acknowledged is sent again by
/// every round of resending that comes `ACK` milliseconds or more after it
/// was last put on the wire, and so before `TIMEOUT` milliseconds have
/// passed if such a round comes in time.
pub proof fn lemma_unacked_is_resent(unacked: Seq<Unacked>, i: int, now: u64)
    requires
        unacked.len() <= usize::MAX,
        0 <= i < unacked.len(),
        now >= unacked[i].last_sent,
        now - unacked[i].last_sent >= ACK,
    ensures
        due_positions(unacked, now).contains(i as usize),
        stamped(unacked[i], now).last_sent == now,
        stamped(unacked[i], now).id == unacked[i].id,
        stamped(unacked[i], now).destination == unacked[i].destination,
        stamped(unacked[i], now).payload == unacked[i].payload,
        ACK < TIMEOUT,
{
    lemma_due_positions(unacked, now);
}

/// Where a connection attempt stands.
#[derive(Clone, Copy, Debug, PartialEq, Eq, Structural)]
pub enum Connection {
    /// The handshake went out at the time given and no answer has come.
    Connecting { since: u64 },
    Connected,
}

/// What becomes of a connection attempt at `now`: an answer connects; with
/// no answer the attempt fails with `Timeout` once more than `TIMEOUT`
/// milliseconds have passed since the handshake went out, and goes on
/// waiting before that.
pub fn poll_connection(state: Connection, answered: bool, now: u64) -> (r: Result<
    Connection,
    SocketError,
>)
    ensures
        r == (match state {
            Connection::Connected => Ok::<Connection, SocketError>(Connection::Connected),
            Connection::Connecting { since } => if answered {
                Ok(Connection::Connected)
            } else if timed_out(since, now) {
                Err(SocketError::Timeout)
            } else {
                Ok(state)
            },
        }),
{
    match state {
        Connection::Connected => Ok(Connection::Connected),
        Connection::Connecting { since } => {
            if answered {
                Ok(Connection::Connected)
            } else if now >= since && now - since > TIMEOUT {
                Err(SocketError::Timeout)
            } else {
                Ok(state)
            }
        },
    }
}

/// When each connected peer was last heard from.
pub struct Peers {
    pub heard: Vec<(Peer, u64)>,
}

impl Peers {
    pub fn new() -> (r: Peers)
        ensures
            r.heard@.len() == 0,
    {
        Peers { heard: Vec::new() }
    }

    /// Notes that `peer` was heard from at `now`, adding the peer if it is
    /// new. Says whether it is new.
    pub fn touch(&mut self, peer: Peer, now: u64) -> (fresh: bool)
        ensures
            fresh == !(exists|i: int|
                0 <= i < old(self).heard@.len() && (#[trigger] old(self).heard@[i]).0 == peer),
            fresh ==> final(self).heard@ == old(self).heard@.push((peer, now)),
            !fresh ==> final(self).heard@.len() == old(self).heard@.len() && forall|i: int|
                0 <= i < old(self).heard@.len()
                    ==> #[trigger] final(self).heard@[i] == (if old(self).heard@[i].0 == peer {
                    (peer, now)
                } else {
                    old(self).heard@[i]
                }),
    {
        let mut found: bool = false;
        let mut i: usize = 0;
        while i < self.heard.len()
            invariant
                i <= self.heard@.len(),
                self.heard@.len() == old(self).heard@.len(),
                found == (exists|k: int| 0 <= k < i && (#[trigger] old(self).heard@[k]).0 == peer),
                forall|k: int|
                    0 <= k < i ==> #[trigger] self.heard@[k] == (if old(self).heard@[k].0 == peer {
                        (peer, now)
                    } else {
                        old(self).heard@[k]
                    }),
                forall|k: int|
                    i <= k < self.heard@.len() ==> #[trigger] self.heard@[k] == old(self).heard@[k],
            decreases self.heard@.len() - i,
        {
            let entry: (Peer, u64) = self.heard[i];
            if entry.0 == peer {
                self.heard[i] = (peer, now);
                found = true;
            }
            i = i + 1;
        }
        if !found {
            self.heard.push((peer, now));
            assert(self.heard@ =~= old(self).heard@.push((peer, now)));
        }
        !found
    }

    /// Drops the peers that were not heard from for more than `TIMEOUT`
    /// milliseconds and lists them, in the order in which they were kept.
    pub fn prune(&mut self, now: u64) -> (dropped: Vec<Peer>)
        ensures
            final(self).heard@ == old(self).heard@.filter(|e: (Peer, u64)| !timed_out(e.1, now)),
            dropped@ == old(self).heard@.filter(|e: (Peer, u64)| timed_out(e.1, now)).map_values(
                |e: (Peer, u64)| e.0,
            ),
    {
        let mut all_heard: Vec<(Peer, u64)> = Vec::new();
        std::mem::swap(&mut self.heard, &mut all_heard);
        let ghost all = all_heard@;
        let ghost alive = |e: (Peer, u64)| !timed_out(e.1, now);
        let ghost stale = |e: (Peer, u64)| timed_out(e.1, now);
        let ghost first = |e: (Peer, u64)| e.0;
        let mut dropped: Vec<Peer> = Vec::new();
        let mut k: usize = 0;
        proof {
            reveal(Seq::filter);
            assert(all.take(0).filter(alive) =~= Seq::<(Peer, u64)>::empty());
            assert(all.take(0).filter(stale) =~= Seq::<(Peer, u64)>::empty());
            assert(all.take(0).filter(stale).map_values(first) =~= Seq::<Peer>::empty());
        }
        while k < all_heard.len()
            invariant
                k <= all_heard@.len(),
                all_heard@ == all,
                all == old(self).heard@,
                alive == (|e: (Peer, u64)| !timed_out(e.1, now)),
                stale == (|e: (Peer, u64)| timed_out(e.1, now)),
                first == (|e: (Peer, u64)| e.0),
                self.heard@ == all.take(k as int).filter(alive),
                dropped@ == all.take(k as int).filter(stale).map_values(first),
            decreases all_heard@.len() - k,
        {
            let entry: (Peer, u64) = all_heard[k];
            proof {
                assert(all.take(k + 1).drop_last() =~= all.take(k as int));
                assert(all.take(k + 1).last() == entry);
                reveal(Seq::filter);
                let before = all.take(k as int).filter(stale);
                if timed_out(entry.1, now) {
                    assert(before.push(entry).map_values(first) =~= before.map_values(first).push(
                        entry.0,
                    ));
                }
            }
            if now >= entry.1 && now - entry.1 > TIMEOUT {
                dropped.push(entry.0);
            } else {
                self.heard.push(entry);
            }
            k = k + 1;
        }
        proof {
            assert(all.take(all.len() as int) =~= all);
        }
        dropped
    }
}

} // verus!
