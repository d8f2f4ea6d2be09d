use vstd::prelude::*;
use crate::addr::PeerAddr;
use crate::codec::{
    u32_bytes, ack_frame, append_bytes, build_ack_frame, build_server_packet, data_frame, server_msg_wf,
    write_u32, ClientPacket, ServerPacket, DATA_FRAME,
};

verus! {

/// Housekeeping ticks per second.
pub const TICK_RATE: u64 = 20;

/// One tick, in milliseconds: the age at which an unacknowledged packet is resent.
pub const RETRY_DELAY_MS: u64 = 50;

/// A sequenced packet kept until the peer acknowledges it.
pub struct Packet {
    pub id: u32,
    /// Milliseconds on the server clock when it was first sent.
    pub creation_time: u64,
    pub data: Vec<u8>,
}

/// Outbound half of a peer's reliability layer.
pub struct PacketShipper {
    socket_address: PeerAddr,
    next_id: u32,
    backed_up: Vec<Packet>,
}

/// The datagram of a pending entry opens with the data-frame byte and the
/// entry's sequence id.
pub open spec fn framed_with_id(p: Packet) -> bool {
    p.data@.len() >= 5 && p.data@.subrange(0, 5) == seq![DATA_FRAME] + u32_bytes(p.id)
}

/// The bytes held by each vector.
pub open spec fn byte_views(r: Seq<Vec<u8>>) -> Seq<Seq<u8>> {
    r.map_values(|v: Vec<u8>| v@)
}

/// Age of a packet at `now`; a clock that went back counts as no age.
pub open spec fn age(created: u64, now: u64) -> int {
    if now >= created {
        now - created
    } else {
        0
    }
}

/// The bytes of the pending packets that are due for a resend at `now`, in
/// the order they are pending.
pub open spec fn due(pending: Seq<Packet>, now: u64) -> Seq<Seq<u8>>
    decreases pending.len(),
{
    if pending.len() == 0 {
        Seq::empty()
    } else {
        let rest = due(pending.drop_last(), now);
        let last = pending.last();
        if age(last.creation_time, now) >= RETRY_DELAY_MS {
            rest.push(last.data@)
        } else {
            rest
        }
    }
}

impl PacketShipper {
    pub closed spec fn addr(&self) -> PeerAddr {
        self.socket_address
    }

    pub closed spec fn next_id(&self) -> u32 {
        self.next_id
    }

    /// The packets sent and not yet acknowledged, oldest first.
    pub closed spec fn pending(&self) -> Seq<Packet> {
        self.backed_up@
    }

    /// Pending ids ascend strictly and lie below the next id to assign; each
    /// pending datagram is a data frame that carries its entry's id.
    pub open spec fn wf(&self) -> bool {
        &&& forall|i: int|
            0 <= i < self.pending().len() ==> framed_with_id(#[trigger] self.pending()[i])
        &&& forall|i: int, j: int|
            0 <= i < j < self.pending().len() ==> self.pending()[i].id < self.pending()[j].id
        &&& forall|i: int| 0 <= i < self.pending().len() ==> self.pending()[i].id < self.next_id()
    }

    /// Whether a sequence id is left to assign.
    pub fn can_send(&self) -> (r: bool)
        ensures
            r == (self.next_id() < u32::MAX),
    {
        self.next_id < u32::MAX
    }

    pub fn new(socket_address: PeerAddr) -> (r: PacketShipper)
        ensures
            r.wf(),
            r.addr() == socket_address,
            r.next_id() == 0,
            r.pending().len() == 0,
    {
        PacketShipper { socket_address, next_id: 0, backed_up: Vec::new() }
    }

    /// Frames `packet` with the next sequence id, keeps it pending, and returns
    /// the datagram to send.
    pub fn send(&mut self, packet: &ServerPacket, now: u64) -> (data: Vec<u8>)
        requires
            old(self).wf(),
            old(self).next_id() < u32::MAX,
            server_msg_wf(packet@),
        ensures
            final(self).wf(),
            data@ == data_frame(old(self).next_id(), packet@),
            final(self).addr() == old(self).addr(),
            final(self).next_id() == old(self).next_id() + 1,
            final(self).pending().len() == old(self).pending().len() + 1,
            final(self).pending().drop_last() == old(self).pending(),
            final(self).pending().last().id == old(self).next_id(),
            final(self).pending().last().creation_time == now,
            final(self).pending().last().data@ == data@,
    {
        let mut data: Vec<u8> = Vec::new();
        data.push(DATA_FRAME);
        write_u32(&mut data, self.next_id);
        let body = build_server_packet(packet);
        append_bytes(&mut data, &body);
        let kept = data.clone();
        assert(kept@ =~= data@);
        let ghost before = self.backed_up@;
        self.backed_up.push(Packet { id: self.next_id, creation_time: now, data: kept });
        assert(self.backed_up@.drop_last() =~= before);
        assert(kept@.subrange(0, 5) =~= seq![DATA_FRAME] + u32_bytes(self.next_id));
        assert forall|a: int| 0 <= a < self.backed_up@.len() implies framed_with_id(#[trigger] self.backed_up@[a]) by {
            if a < before.len() {
                assert(self.backed_up@[a] == before[a]);
                assert(before == old(self).pending());
                assert(framed_with_id(old(self).pending()[a]));
            }
        }
        assert forall|a: int, b: int| 0 <= a < b < self.backed_up@.len() implies
            self.backed_up@[a].id < self.backed_up@[b].id by {
            assert(self.backed_up@[a] == before[a]);
            assert(before == old(self).pending());
            if b < before.len() {
                assert(self.backed_up@[b] == before[b]);
                assert(old(self).pending()[a].id < old(self).pending()[b].id);
            } else {
                assert(old(self).pending()[a].id < old(self).next_id());
            }
        }
        assert forall|a: int| 0 <= a < self.backed_up@.len() implies
            self.backed_up@[a].id <= self.next_id by {
            if a < before.len() {
                assert(self.backed_up@[a] == before[a]);
                assert(before == old(self).pending());
                assert(old(self).pending()[a].id < old(self).next_id());
            }
        }
        self.next_id = self.next_id + 1;
        proof {
            assert(data@ =~= data_frame(old(self).next_id(), packet@));
        }
        data
    }

    /// The datagrams of every pending packet at least one tick old at `now`,
    /// oldest first, each under the sequence id it was first sent with.
    pub fn resend_unacknowledged_packets(&self, now: u64) -> (r: Vec<Vec<u8>>)
        ensures
            byte_views(r@) == due(self.pending(), now),
    {
        let mut r: Vec<Vec<u8>> = Vec::new();
        let mut i: usize = 0;
        while i < self.backed_up.len()
            invariant
                i <= self.backed_up@.len(),
                byte_views(r@) == due(self.backed_up@.take(i as int), now),
            decreases self.backed_up@.len() - i,
        {
            let packet = &self.backed_up[i];
            let old_enough = if now >= packet.creation_time {
                now - packet.creation_time >= RETRY_DELAY_MS
            } else {
                false
            };
            let ghost prev = byte_views(r@);
            if old_enough {
                let copy = packet.data.clone();
                assert(copy@ =~= packet.data@);
                r.push(copy);
                assert(byte_views(r@) =~= prev.push(packet.data@));
            }
            assert(self.backed_up@.take(i + 1).drop_last() =~= self.backed_up@.take(i as int));
            i = i + 1;
        }
        assert(self.backed_up@.take(i as int) =~= self.backed_up@);
        r
    }

    /// Drops the pending packet with sequence id `id`; an unknown id changes nothing.
    pub fn acknowledge(&mut self, id: u32)
        requires
            old(self).wf(),
        ensures
            final(self).wf(),
            final(self).addr() == old(self).addr(),
            final(self).next_id() == old(self).next_id(),
            (forall|j: int| 0 <= j < old(self).pending().len() ==> old(self).pending()[j].id != id)
                ==> final(self).pending() == old(self).pending(),
            forall|j: int|
                0 <= j < old(self).pending().len() && old(self).pending()[j].id == id
                    ==> final(self).pending() == old(self).pending().remove(j),
            forall|j: int| 0 <= j < final(self).pending().len() ==> final(self).pending()[j].id != id,
    {
        let mut i: usize = 0;
        while i < self.backed_up.len()
            invariant
                i <= self.backed_up@.len(),
                old(self).wf(),
                self.backed_up@ == old(self).backed_up@,
                self.next_id == old(self).next_id,
                self.socket_address == old(self).socket_address,
                forall|j: int| 0 <= j < i ==> self.backed_up@[j].id != id,
            decreases self.backed_up@.len() - i,
        {
            if self.backed_up[i].id == id {
                let ghost before = self.backed_up@;
                let _ = self.backed_up.remove(i);
                assert forall|a: int, b: int| 0 <= a < b < self.backed_up@.len() implies
                    self.backed_up@[a].id < self.backed_up@[b].id by {
                    if a >= i {
                        assert(self.backed_up@[a] == before[a + 1]);
                    }
                    if b >= i {
                        assert(self.backed_up@[b] == before[b + 1]);
                    }
                }
                assert forall|a: int| 0 <= a < self.backed_up@.len() implies
                    self.backed_up@[a].id != id by {
                    if a < i {
                        assert(self.backed_up@[a] == before[a]);
                        assert(before[a].id < before[i as int].id);
                    } else {
                        assert(self.backed_up@[a] == before[a + 1]);
                        assert(before[i as int].id < before[a + 1].id);
                    }
                }
                assert forall|a: int| 0 <= a < self.backed_up@.len() implies
                    framed_with_id(#[trigger] self.backed_up@[a]) by {
                    if a >= i {
                        assert(self.backed_up@[a] == before[a + 1]);
                    }
                }
                assert forall|a: int| 0 <= a < self.backed_up@.len() implies
                    self.backed_up@[a].id < self.next_id by {
                    if a >= i {
                        assert(self.backed_up@[a] == before[a + 1]);
                    }
                }
                return;
            }
            i = i + 1;
        }
    }
}

/// Inbound half of a peer's reliability layer.
pub struct PacketReciever {
    socket_address: PeerAddr,
    next_id: u64,
    last_message_time: u64,
}

/// One step of the ordering discipline: from the next expected id and an
/// arriving id, the next expected id after it and whether it is surfaced.
pub open spec fn receive(next: u64, id: u32) -> (u64, bool) {
    if (id as u64) < next {
        (next, false)
    } else {
        ((id + 1) as u64, true)
    }
}

impl PacketReciever {
    pub closed spec fn addr(&self) -> PeerAddr {
        self.socket_address
    }

    /// The lowest sequence id that would still be surfaced.
    pub closed spec fn next_id(&self) -> u64 {
        self.next_id
    }

    pub closed spec fn last_heard(&self) -> u64 {
        self.last_message_time
    }

    pub fn new(socket_address: PeerAddr, now: u64) -> (r: PacketReciever)
        ensures
            r.addr() == socket_address,
            r.next_id() == 0,
            r.last_heard() == now,
    {
        PacketReciever { socket_address, next_id: 0, last_message_time: now }
    }

    pub fn get_last_message_time(&self) -> (r: u64)
        ensures
            r == self.last_heard(),
    {
        self.last_message_time
    }

    /// Takes in a client datagram: returns the ack frame to send for it, and the
    /// packet where it is not older than one already surfaced.
    pub fn sort_packets(&mut self, id: u32, packet: ClientPacket, now: u64) -> (r: (
        Vec<u8>,
        Option<ClientPacket>,
    ))
        ensures
            r.0@ == ack_frame(id),
            final(self).addr() == old(self).addr(),
            final(self).last_heard() == now,
            final(self).next_id() == receive(old(self).next_id(), id).0,
            receive(old(self).next_id(), id).1 ==> r.1 == Some(packet),
            !receive(old(self).next_id(), id).1 ==> r.1 is None,
    {
        self.last_message_time = now;
        let ack = self.send_ack(id);
        if (id as u64) < self.next_id {
            (ack, None)
        } else {
            self.next_id = id as u64 + 1;
            (ack, Some(packet))
        }
    }

    fn send_ack(&self, id: u32) -> (r: Vec<u8>)
        ensures
            r@ == ack_frame(id),
    {
        build_ack_frame(id)
    }
}

/// The ids surfaced, in order, when datagrams with `ids` arrive at a receiver
/// expecting `next`.
pub open spec fn surfaced_ids(next: u64, ids: Seq<u32>) -> Seq<u32>
    decreases ids.len(),
{
    if ids.len() == 0 {
        Seq::empty()
    } else {
        let (n2, shown) = receive(next, ids[0]);
        if shown {
            seq![ids[0]] + surfaced_ids(n2, ids.drop_first())
        } else {
            surfaced_ids(n2, ids.drop_first())
        }
    }
}

/// Whatever datagrams arrive, the ids a receiver surfaces strictly increase,
/// and none is below the id it expected first.
pub proof fn lemma_surfaced_increasing(next: u64, ids: Seq<u32>)
    ensures
        forall|i: int, j: int|
            0 <= i < j < surfaced_ids(next, ids).len() ==> surfaced_ids(next, ids)[i]
                < surfaced_ids(next, ids)[j],
        forall|i: int|
            0 <= i < surfaced_ids(next, ids).len() ==> next <= surfaced_ids(next, ids)[i],
    decreases ids.len(),
{
    if ids.len() > 0 {
        let (n2, shown) = receive(next, ids[0]);
        lemma_surfaced_increasing(n2, ids.drop_first());
        let rest = surfaced_ids(n2, ids.drop_first());
        if shown {
            let all = seq![ids[0]] + rest;
            assert forall|i: int, j: int| 0 <= i < j < all.len() implies all[i] < all[j] by {
                if i > 0 {
                    assert(all[i] == rest[i - 1]);
                }
                assert(all[j] == rest[j - 1]);
            }
            assert forall|i: int| 0 <= i < all.len() implies next <= all[i] by {
                if i > 0 {
                    assert(all[i] == rest[i - 1]);
                }
            }
        }
    }
}

/// A datagram repeated with the same sequence id is surfaced at most once:
/// when the first copy is surfaced, the second is not.
pub proof fn lemma_duplicate_surfaced_once(next: u64, id: u32)
    ensures
        receive(next, id).1 ==> !receive(receive(next, id).0, id).1,
{
}

/// A peer's first datagram is surfaced whatever its sequence id, and the
/// receiver then expects the id after it.
pub proof fn lemma_first_datagram_surfaced(id: u32)
    ensures
        receive(0, id) == ((id + 1) as u64, true),
{
}

} // verus!
