use vstd::prelude::*;
use crate::step::{msg_post, ack_post, forward_in_post};
use bit_vec::BitVec;
use crate::bits::{subset_bits, byte_bit, bits_clone, bits_filled, bits_from_bytes, bits_of, bits_to_bytes, bits_truncate};
use crate::record::BufferRecord;
use crate::messages::{CombinedGossip, FORWARD, MSG, MSGAck, Payload, WireMessage};
use crate::node::{Delivery, MergedNode, MAX_NODES};
use crate::types::{Int, Tag, Variant};
use crate::scd::{find_scd, forward_post};
use crate::urb::{find_tag, is_new_urb_record, keeps_delivery};

verus! {

/// A packed bitmap long enough for `n` nodes and short enough to unpack.
pub open spec fn bytes_fit(bytes: Seq<u8>, n: nat) -> bool {
    bytes.len() * 8 >= n && bytes.len() <= MAX_NODES
}

/// The first `n` bits of a packed bitmap.
pub open spec fn unpacked(bytes: Seq<u8>, n: nat) -> Seq<bool> {
    Seq::new(n, |i: int| crate::bits::byte_bit(bytes, i))
}

/// Unpacks the first `n` bits of a packed bitmap.
pub fn unpack_bits(bytes: &Vec<u8>, n: usize) -> (r: BitVec)
    requires
        bytes_fit(bytes@, n as nat),
    ensures
        bits_of(r) == unpacked(bytes@, n as nat),
{
    let mut b = bits_from_bytes(bytes.as_slice());
    bits_truncate(&mut b, n);
    proof {
        assert(bits_of(b) =~= unpacked(bytes@, n as nat));
    }
    b
}

/// Bit `i` of the acknowledgement for `tag`: the bitmap of the record that
/// holds it, or, with no such record, whether the tag is already obsolete.
pub open spec fn ack_bit(buf: Seq<BufferRecord>, tag: Tag, rx: Seq<Int>, i: int) -> bool {
    match crate::urb::find_tag(buf, tag) {
        Some(j) => bits_of(buf[j].recBy)[i],
        None => tag.seq <= rx[tag.id - 1],
    }
}

impl MergedNode {
    /// Applies both progress summaries a `MSG` carries (the SCD one only
    /// when the SCD layer runs).
    pub fn update_gossip(&mut self, gossip: CombinedGossip)
        requires
            old(self).wf(),
        ensures
            final(self).wf(),
            final(self).buffer == old(self).buffer,
            final(self).next_to_deliver == old(self).next_to_deliver,
            final(self).theta == old(self).theta,
            final(self).settings == old(self).settings,
            final(self).outbox == old(self).outbox,
            final(self).delivered == old(self).delivered,
    {
        self.GOSSIP_received(gossip.urb_gossip);
        match self.settings.variant {
            Variant::URB => {},
            _ => self.SCDGOSSIP_received(gossip.scd_gossip),
        }
    }

    /// A `MSG` from a peer: merge its summaries and its acknowledgement
    /// bitmaps, create the record if the tag is new and the message carries
    /// a payload, and answer with a `MSGAck`. A message naming an unknown
    /// node, or with a bitmap too short for every node, is dropped.
    pub fn MSG_received(&mut self, msg: MSG)
        requires
            old(self).wf(),
        ensures
            msg_post(*old(self), *final(self), msg),
            final(self).wf(),
            keeps_delivery(old(self).buffer@, final(self).buffer@),
            final(self).next_to_deliver == old(self).next_to_deliver,
            final(self).delivered == old(self).delivered,
            final(self).settings == old(self).settings,
            ({
                let ok = 1 <= msg.sender <= old(self).n() && 1 <= msg.tag.id <= old(self).n()
                    && bytes_fit(msg.recv_by@, old(self).n()) && bytes_fit(msg.recv_by_trusted@, old(self).n());
                &&& !ok ==> *final(self) == *old(self)
                &&& ok ==> forall|j: int| 0 <= j < old(self).buffer@.len() ==> subset_bits(bits_of(old(self).buffer@[j].recBy),
                    bits_of(#[trigger] final(self).buffer@[j].recBy))
                &&& ok && find_tag(old(self).buffer@, msg.tag).is_some() ==> final(self).buffer@.len() == old(self).buffer@.len()
                &&& ok && find_tag(old(self).buffer@, msg.tag).is_none() && msg.msg.is_some()
                    && msg.tag.seq > final(self).urb_rxObsS@[msg.tag.id - 1] ==> final(self).buffer@.drop_last() == old(self).buffer@
                    && is_new_urb_record(final(self).buffer@.last(), msg.tag, msg.msg, old(self).node_id, old(self).n(),
                        Some(unpacked(msg.recv_by@, old(self).n())))
                &&& ok && find_tag(old(self).buffer@, msg.tag).is_none() && (msg.msg.is_none()
                    || msg.tag.seq <= final(self).urb_rxObsS@[msg.tag.id - 1]) ==> final(self).buffer == old(self).buffer
                &&& ok ==> final(self).outbox@.len() == old(self).outbox@.len() + 1
                    && final(self).outbox@.drop_last() == old(self).outbox@
                    && final(self).outbox@.last().0 == msg.sender
                    && (final(self).outbox@.last().1 matches WireMessage::Ack(a)
                        && a.sender == old(self).node_id && a.tag == msg.tag
                        && forall|i: int| 0 <= i < old(self).n() ==> #[trigger] byte_bit(a.recv_by@, i) == ack_bit(
                            final(self).buffer@, msg.tag, final(self).urb_rxObsS@, i))
            }),
    {
        let n = self.settings.number_of_nodes;
        if !(1 <= msg.sender && msg.sender <= n && 1 <= msg.tag.id && msg.tag.id <= n) {
            return;
        }
        if !(msg.recv_by.len() <= MAX_NODES && msg.recv_by_trusted.len() <= MAX_NODES) {
            return;
        }
        if !(msg.recv_by.len() * 8 >= n && msg.recv_by_trusted.len() * 8 >= n) {
            return;
        }
        let rb = unpack_bits(&msg.recv_by, n);
        let rbt = unpack_bits(&msg.recv_by_trusted, n);
        let ghost b0 = self.buffer@;
        self.update_gossip(msg.gossip);
        let tag = msg.tag;
        let upd = self.update(msg.msg, tag, msg.sender, Some(rb), Some(rbt));
        let index = self.get_index_by_urb_tag(&tag);
        let ack = match index {
            Some(i) => {
                assert(self.buffer@[i as int].wf(self.n()));
                bits_clone(&self.buffer[i].recBy)
            },
            None => bits_filled(n, upd),
        };
        let ghost ack_bits = bits_of(ack);
        let a = MSGAck { sender: self.node_id, tag, recv_by: bits_to_bytes(&ack) };
        self.outbox.push((msg.sender, WireMessage::Ack(a)));
        proof {
            assert(self.outbox@.drop_last() =~= old(self).outbox@);
        }
    }

    /// A `MSGAck` from a peer: merges its bitmap into the record of the tag,
    /// if held; creates nothing. A malformed one is dropped.
    pub fn MSGAck_received(&mut self, msg: MSGAck)
        requires
            old(self).wf(),
        ensures
            ack_post(*old(self), *final(self), msg),
            final(self).wf(),
            keeps_delivery(old(self).buffer@, final(self).buffer@),
            final(self).buffer@.len() == old(self).buffer@.len(),
            final(self).next_to_deliver == old(self).next_to_deliver,
            final(self).delivered == old(self).delivered,
            final(self).outbox == old(self).outbox,
            final(self).settings == old(self).settings,
    {
        let n = self.settings.number_of_nodes;
        if !(1 <= msg.sender && msg.sender <= n && 1 <= msg.tag.id && msg.tag.id <= n) {
            return;
        }
        if !(msg.recv_by.len() <= MAX_NODES && msg.recv_by.len() * 8 >= n) {
            return;
        }
        let rb = unpack_bits(&msg.recv_by, n);
        let _ = self.update(None, msg.tag, msg.sender, Some(rb), None);
    }

    /// A `FORWARD` from a peer or out of a URB delivery: hands it to
    /// `forward`. One naming an unknown node, or whose clock does not have
    /// one entry per node, is dropped.
    pub fn SCD_forward_recieved(&mut self, msg: FORWARD)
        requires
            old(self).wf(),
        ensures
            forward_in_post(*old(self), *final(self), msg),
            1 <= msg.msg_tag.id <= old(self).n() && 1 <= msg.forward_tag.id <= old(self).n() && msg.cl@.len() == old(self).n() ==> exists|r: Option<Tag>| forward_post(*old(self), *final(self), msg.msg, msg.msg_tag,
                msg.forward_tag, Some(msg.cl), r),
            !(1 <= msg.msg_tag.id <= old(self).n() && 1 <= msg.forward_tag.id <= old(self).n() && msg.cl@.len() == old(self).n()) ==> *final(self) == *old(self),
            forall|j: int| 0 <= j < old(self).buffer@.len() ==> (#[trigger] final(self).buffer@[j]).urb_tag
                == old(self).buffer@[j].urb_tag && final(self).buffer@[j].recBy == old(self).buffer@[j].recBy,
            forall|j: int| old(self).buffer@.len() <= j < final(self).buffer@.len() ==> (#[trigger] final(self).buffer@[j]).urb_tag.is_none(),
            final(self).theta == old(self).theta,
            final(self).wf(),
            final(self).next_to_deliver == old(self).next_to_deliver,
            final(self).delivered == old(self).delivered,
            final(self).outbox == old(self).outbox,
            final(self).settings == old(self).settings,
            forall|j: int| 0 <= j < old(self).buffer@.len() ==> (#[trigger] final(self).buffer@[j]).delivered
                == old(self).buffer@[j].delivered,
            final(self).buffer@.len() >= old(self).buffer@.len(),
    {
        let n = self.settings.number_of_nodes;
        if !(1 <= msg.msg_tag.id && msg.msg_tag.id <= n && 1 <= msg.forward_tag.id && msg.forward_tag.id <= n
            && msg.cl.vc.len() == n) {
            return;
        }
        let ghost pre = *self;
        let r = self.forward(msg.msg, msg.msg_tag, msg.forward_tag, Some(msg.cl));
        proof {
            assert(forward_post(pre, *self, msg.msg, msg.msg_tag, msg.forward_tag, Some(msg.cl), r));
            match find_scd(pre.buffer@, msg.msg_tag) {
                Some(i) => {
                    assert forall|j: int| 0 <= j < pre.buffer@.len() implies (#[trigger] self.buffer@[j]).urb_tag
                        == pre.buffer@[j].urb_tag && self.buffer@[j].recBy == pre.buffer@[j].recBy by {
                        if j != i {
                            assert(self.buffer@[j] == pre.buffer@[j]);
                        }
                    }
                },
                None => {
                    if self.buffer@.len() > pre.buffer@.len() {
                        assert forall|j: int| 0 <= j < pre.buffer@.len() implies (#[trigger] self.buffer@[j]).urb_tag
                            == pre.buffer@[j].urb_tag && self.buffer@[j].recBy == pre.buffer@[j].recBy by {
                            assert(self.buffer@.drop_last()[j] == self.buffer@[j]);
                        }
                    }
                },
            }
        }
    }

    /// URB delivery of `msg` tagged `tag`: to the application in the
    /// URB-only variant, otherwise into the SCD layer.
    pub fn urb_deliver(&mut self, tag: Tag, msg: Option<Payload>)
        requires
            old(self).wf(),
        ensures
            old(self).settings.variant != Variant::URB ==> (match msg {
                Some(Payload::Forward(f)) => forward_in_post(*old(self), *final(self), f),
                _ => *final(self) == *old(self),
            }),
            forall|j: int| 0 <= j < old(self).buffer@.len() ==> (#[trigger] final(self).buffer@[j]).urb_tag
                == old(self).buffer@[j].urb_tag && final(self).buffer@[j].recBy == old(self).buffer@[j].recBy,
            forall|j: int| old(self).buffer@.len() <= j < final(self).buffer@.len() ==> (#[trigger] final(self).buffer@[j]).urb_tag.is_none(),
            final(self).theta == old(self).theta,
            old(self).delivered@.is_prefix_of(final(self).delivered@),
            final(self).wf(),
            final(self).next_to_deliver == old(self).next_to_deliver,
            final(self).outbox == old(self).outbox,
            final(self).settings == old(self).settings,
            old(self).settings.variant == Variant::URB ==> final(self).buffer == old(self).buffer && (
                match msg {
                    Some(Payload::Text(t)) => final(self).delivered@ == old(self).delivered@.push(Delivery::Urb(tag, t)),
                    _ => final(self).delivered == old(self).delivered,
                }),
            old(self).settings.variant != Variant::URB ==> final(self).delivered == old(self).delivered,
            forall|j: int| 0 <= j < old(self).buffer@.len() ==> (#[trigger] final(self).buffer@[j]).delivered
                == old(self).buffer@[j].delivered,
            final(self).buffer@.len() >= old(self).buffer@.len(),
    {
        match self.settings.variant {
            Variant::URB => {
                match msg {
                    Some(Payload::Text(t)) => {
                        self.delivered.push(Delivery::Urb(tag, t));
                    },
                    _ => {},
                }
            },
            _ => {
                match msg {
                    Some(Payload::Forward(f)) => self.SCD_forward_recieved(f),
                    _ => {},
                }
            },
        }
    }
}

} // verus!
