use vstd::prelude::*;
use crate::step::{gossip_post};
use bit_vec::BitVec;
use crate::bits::{byte_bit, bits_filled, bits_get, bits_of, bits_or, bits_set, is_subset, subset_bits, bits_to_bytes, ack_by_majority, urb_is_ack_by_majority};
use crate::messages::{copy_payload, same_payload, CombinedGossip, Payload, MSG, GOSSIP, SCDGOSSIP, WireMessage};
use crate::node::{filled_opt, MergedNode};
use crate::record::BufferRecord;
use crate::scd::saved_set;
use crate::types::{Int, NodeId, StatusCode, Tag};

verus! {

/// Largest sequence number of sender `id` among the first `k` records.
pub open spec fn max_seq_of(buf: Seq<BufferRecord>, id: NodeId, k: int) -> Int
    decreases k,
{
    if k <= 0 {
        0
    } else {
        let m = max_seq_of(buf, id, k - 1);
        let r = buf[k - 1];
        if r.urb_tag.is_some() && r.urb_tag.unwrap().id == id && r.urb_tag.unwrap().seq > m {
            r.urb_tag.unwrap().seq
        } else {
            m
        }
    }
}

/// Smallest entry of `v` at a position set in `t`, among the first `k`;
/// `Int::MAX` when there is none.
pub open spec fn min_trusted(v: Seq<Int>, t: Seq<bool>, k: int) -> Int
    decreases k,
{
    if k <= 0 {
        Int::MAX
    } else {
        let m = min_trusted(v, t, k - 1);
        if t[k - 1] && v[k - 1] < m {
            v[k - 1]
        } else {
            m
        }
    }
}

pub open spec fn sat_add(a: Int, b: int) -> Int {
    if a + b > Int::MAX {
        Int::MAX
    } else {
        (a + b) as Int
    }
}

pub open spec fn opt_bits(o: Option<BitVec>) -> Option<Seq<bool>> {
    match o {
        Some(b) => Some(bits_of(b)),
        None => None,
    }
}

/// Position of the first record tagged `tag`.
pub open spec fn find_tag(buf: Seq<BufferRecord>, tag: Tag) -> Option<int> {
    if exists|i: int| 0 <= i < buf.len() && buf[i].urb_tag == Some(tag) {
        Some(choose|i: int| 0 <= i < buf.len() && buf[i].urb_tag == Some(tag) && forall|j: int| 0 <= j < i ==> buf[j].urb_tag != Some(tag))
    } else {
        None
    }
}

/// The record that a first reception of `tag` creates.
pub open spec fn is_new_urb_record(
    r: BufferRecord,
    tag: Tag,
    msg: Option<Payload>,
    self_id: NodeId,
    n: nat,
    rb: Option<Seq<bool>>,
) -> bool {
    &&& r.urb_tag == Some(tag)
    &&& r.msg == msg
    &&& !r.delivered
    &&& bits_of(r.recBy) == Seq::new(
        n,
        |i: int| i == self_id - 1 || i == tag.id - 1 || (rb.is_some() && rb.unwrap()[i]),
    )
    &&& bits_of(r.recBy_trusted) == Seq::new(n, |_i: int| false)
    &&& r.prevHB@ == Seq::new(n, |_i: int| None::<Int>)
    &&& r.urb_needed
    &&& r.scd_needed
    &&& r.meta.is_none()
}

/// `recBy` after merging an acknowledgement for `tag` relayed by `fwd`.
pub open spec fn merged_rec_by(old: Seq<bool>, tag: Tag, fwd: NodeId, rb: Option<Seq<bool>>) -> Seq<bool> {
    Seq::new(
        old.len(),
        |i: int| old[i] || i == tag.id - 1 || i == fwd - 1 || (rb.is_some() && rb.unwrap()[i]),
    )
}

/// `recBy_trusted` after merging an acknowledgement for `tag` relayed by `fwd`.
pub open spec fn merged_rec_by_trusted(
    old_rb: Seq<bool>,
    old: Seq<bool>,
    tag: Tag,
    fwd: NodeId,
    self_id: NodeId,
    trusted: Seq<bool>,
    rb: Option<Seq<bool>>,
    rbt: Option<Seq<bool>>,
) -> Seq<bool> {
    let rb1 = merged_rec_by(old_rb, tag, fwd, rb);
    Seq::new(
        old.len(),
        |i: int|
            old[i] || (rb.is_some() && subset_bits(trusted, rb.unwrap()) && (i == tag.id - 1 || i
                == fwd - 1 || i == self_id - 1)) || (rb.is_some() && rbt.is_some()
                && rbt.unwrap()[i]) || (subset_bits(trusted, rb1) && i == self_id - 1),
    )
}

/// `new` is `old` with an acknowledgement for `tag` relayed by `fwd` merged in.
pub open spec fn is_acked_record(
    old: BufferRecord,
    new: BufferRecord,
    tag: Tag,
    fwd: NodeId,
    self_id: NodeId,
    trusted: Seq<bool>,
    rb: Option<Seq<bool>>,
    rbt: Option<Seq<bool>>,
) -> bool {
    &&& new.urb_tag == old.urb_tag
    &&& new.msg == old.msg
    &&& new.delivered == old.delivered
    &&& new.prevHB == old.prevHB
    &&& new.urb_needed == old.urb_needed
    &&& new.scd_needed == old.scd_needed
    &&& new.meta == old.meta
    &&& bits_of(new.recBy) == merged_rec_by(bits_of(old.recBy), tag, fwd, rb)
    &&& bits_of(new.recBy_trusted) == merged_rec_by_trusted(
        bits_of(old.recBy),
        bits_of(old.recBy_trusted),
        tag,
        fwd,
        self_id,
        trusted,
        rb,
        rbt,
    )
}

/// Records present before keep their tag, payload, delivery state and SCD
/// bookkeeping; records added are undelivered.
pub open spec fn keeps_delivery(old: Seq<BufferRecord>, new: Seq<BufferRecord>) -> bool {
    &&& new.len() >= old.len()
    &&& forall|j: int|
        0 <= j < old.len() ==> (#[trigger] new[j]).urb_tag == old[j].urb_tag && new[j].delivered
            == old[j].delivered && new[j].meta == old[j].meta && new[j].msg == old[j].msg
    &&& forall|j: int| old.len() <= j < new.len() ==> !(#[trigger] new[j]).delivered
}

/// Number of the first `k` positions of `d` whose record's sender is `s`.
pub open spec fn count_sender(b: Seq<BufferRecord>, d: Seq<usize>, s: NodeId, k: int) -> nat
    decreases k,
{
    if k <= 0 {
        0
    } else {
        count_sender(b, d, s, k - 1) + if b[d[k - 1] as int].urb_tag.unwrap().id == s { 1nat } else { 0nat }
    }
}

/// Per-sender FIFO: the `k`-th delivery of the records at positions `d`
/// carries the next expected sequence number of its sender, counted from
/// `ntd`, so each sender's deliveries are consecutive and without gaps.
pub open spec fn fifo_deliveries(b: Seq<BufferRecord>, d: Seq<usize>, ntd: Seq<Int>) -> bool {
    forall|k: int|
        0 <= k < d.len() ==> {
            let t = (#[trigger] b[d[k] as int]).urb_tag.unwrap();
            t.seq == ntd[t.id - 1] + count_sender(b, d, t.id, k)
        }
}

/// An outgoing retransmission: a `MSG` from `node` for the tag of one of
/// its records whose sender is `node` itself or not trusted.
pub open spec fn is_retransmission(node: MergedNode, e: (NodeId, WireMessage)) -> bool {
    e.1 matches WireMessage::Msg(m) && m.sender == node.node_id
        && (m.tag.id == node.node_id || !node.trusted_view()[m.tag.id - 1])
        && exists|j: int| 0 <= j < node.buffer@.len() && (#[trigger] node.buffer@[j]).urb_tag == Some(m.tag)
}

/// Record `r` may be URB-delivered now: undelivered, next in FIFO order for
/// its sender, and acknowledged by more than half of the trusted nodes.
pub open spec fn urb_deliverable(node: MergedNode, r: BufferRecord) -> bool {
    let t = r.urb_tag.unwrap();
    &&& r.urb_tag.is_some()
    &&& !r.delivered
    &&& 1 <= t.id <= node.n()
    &&& t.seq == node.next_to_deliver@[t.id - 1]
    &&& node.next_to_deliver@[t.id - 1] < Int::MAX
    &&& ack_by_majority(node.trusted_view(), bits_of(r.recBy))
}

/// `node` resends record `r` to the node at position `k`: the record is of
/// this node or of an untrusted sender, and either the peer has not
/// acknowledged it (or has not yet seen it as next) and its heartbeat moved
/// since the last send, or a retransmission is forced.
pub open spec fn resend_to(node: MergedNode, r: BufferRecord, k: int, hb: Seq<Int>, force: bool) -> bool {
    let t = r.urb_tag.unwrap();
    let needs = !bits_of(r.recBy)[k] || !bits_of(r.recBy_trusted)[k] || (t.id == node.node_id
        && node.urb_txObsS@[k] < Int::MAX && t.seq == node.urb_txObsS@[k] + 1);
    let moved = match r.prevHB@[k] {
        Some(p) => p < hb[k],
        None => true,
    };
    &&& r.urb_tag.is_some()
    &&& (t.id == node.node_id || !node.trusted_view()[t.id - 1])
    &&& ((needs && moved) || force)
}

/// Message `e` is a `MSG` for record `r`: its tag, its payload and its
/// acknowledgement bitmap for the `n` nodes.
pub open spec fn carries_record(e: WireMessage, r: BufferRecord, n: nat) -> bool {
    e matches WireMessage::Msg(m) && Some(m.tag) == r.urb_tag && same_payload(m.msg, r.msg)
        && forall|i: int| 0 <= i < n ==> #[trigger] byte_bit(m.recv_by@, i) == bits_of(r.recBy)[i]
}

/// Everything but the buffer is as before.
pub open spec fn same_but_buffer(a: MergedNode, b: MergedNode) -> bool {
    &&& a.settings == b.settings
    &&& a.node_id == b.node_id
    &&& a.theta == b.theta
    &&& a.hbfd == b.hbfd
    &&& a.seq == b.seq
    &&& a.urb_rxObsS == b.urb_rxObsS
    &&& a.urb_txObsS == b.urb_txObsS
    &&& a.next_to_deliver == b.next_to_deliver
    &&& a.sn == b.sn
    &&& a.scd_rxObsS == b.scd_rxObsS
    &&& a.scd_txObsS == b.scd_txObsS
    &&& a.scd_rxSpace == b.scd_rxSpace
    &&& a.scd_txSpace == b.scd_txSpace
    &&& a.gossip_sent == b.gossip_sent
    &&& a.illegally_triggered_ss == b.illegally_triggered_ss
    &&& a.outbox == b.outbox
    &&& a.delivered == b.delivered
}

impl MergedNode {
    pub open spec fn trusted_view(&self) -> Seq<bool> {
        bits_of(self.theta.current_trusted)
    }

    /// Largest sequence number of `id` this node knows of.
    pub open spec fn urb_max_seq(&self, id: NodeId) -> Int {
        let a = max_seq_of(self.buffer@, id, self.buffer@.len() as int);
        let d = self.next_to_deliver@[id - 1];
        let b = if d >= 1 { (d - 1) as Int } else { 0 };
        if a >= b { a } else { b }
    }

    /// Smallest `urb_txObsS` over the trusted nodes.
    pub open spec fn min_urb_tx(&self) -> Int {
        min_trusted(self.urb_txObsS@, self.trusted_view(), self.n() as int)
    }

    /// Room for one more local URB broadcast.
    pub open spec fn urb_space(&self) -> bool {
        self.seq < sat_add(self.min_urb_tx(), self.urb_unit())
    }

    /// Room for `k` more local URB broadcasts.
    pub open spec fn urb_space_for(&self, k: Int) -> bool {
        self.seq + k <= sat_add(self.min_urb_tx(), self.urb_unit())
    }

    /// Position of the first record tagged `urb_tag`.
    pub fn get_index_by_urb_tag(&self, urb_tag: &Tag) -> (r: Option<usize>)
        ensures
            r matches Some(i) ==> i < self.buffer@.len() && self.buffer@[i as int].urb_tag == Some(*urb_tag)
                && forall|j: int| 0 <= j < i ==> self.buffer@[j].urb_tag != Some(*urb_tag),
            r.is_none() ==> forall|j: int| 0 <= j < self.buffer@.len() ==> self.buffer@[j].urb_tag != Some(*urb_tag),
            r.is_none() <==> find_tag(self.buffer@, *urb_tag).is_none(),
            r matches Some(i) ==> find_tag(self.buffer@, *urb_tag) == Some(i as int),
    {
        let mut i: usize = 0;
        while i < self.buffer.len()
            invariant
                i <= self.buffer@.len(),
                forall|j: int| 0 <= j < i ==> self.buffer@[j].urb_tag != Some(*urb_tag),
            decreases self.buffer@.len() - i,
        {
            if self.buffer[i].urb_tag == Some(*urb_tag) {
                proof {
                    let b = self.buffer@;
                    let t = *urb_tag;
                    assert(exists|k: int| 0 <= k < b.len() && b[k].urb_tag == Some(t));
                    let c = find_tag(b, t).unwrap();
                    if c < i {
                    } else if c > i {
                        assert(b[i as int].urb_tag == Some(t));
                    }
                }
                return Some(i);
            }
            i = i + 1;
        }
        None
    }

    /// Largest sequence number of node `node_id` that this node knows of:
    /// in its buffer, or already delivered.
    pub fn urb_maxSeq(&self, node_id: NodeId) -> (r: Int)
        requires
            self.wf(),
            1 <= node_id <= self.n(),
        ensures
            r == self.urb_max_seq(node_id),
    {
        let mut max_seq: Int = 0;
        let mut i: usize = 0;
        while i < self.buffer.len()
            invariant
                i <= self.buffer@.len(),
                max_seq == max_seq_of(self.buffer@, node_id, i as int),
            decreases self.buffer@.len() - i,
        {
            match self.buffer[i].urb_tag {
                Some(t) => {
                    if t.id == node_id && t.seq > max_seq {
                        max_seq = t.seq;
                    }
                },
                None => {},
            }
            i = i + 1;
        }
        let d = self.next_to_deliver[node_id - 1];
        let b = if d >= 1 { d - 1 } else { 0 };
        if max_seq >= b { max_seq } else { b }
    }

    /// Smallest `urb_txObsS` entry over the trusted nodes.
    pub fn min_urb_TxObsS(&self) -> (r: Int)
        requires
            self.wf(),
        ensures
            r == self.min_urb_tx(),
    {
        let n = self.settings.number_of_nodes;
        let mut min_s: Int = Int::MAX;
        let mut i: usize = 0;
        while i < n
            invariant
                self.wf(),
                n == self.n(),
                i <= n,
                min_s == min_trusted(self.urb_txObsS@, self.trusted_view(), i as int),
            decreases n - i,
        {
            if bits_get(&self.theta.current_trusted, i) == Some(true) && self.urb_txObsS[i] < min_s {
                min_s = self.urb_txObsS[i];
            }
            i = i + 1;
        }
        min_s
    }

    /// Room for one more local URB broadcast within the window.
    pub fn urb_available_space(&self) -> (r: bool)
        requires
            self.wf(),
        ensures
            r == self.urb_space(),
    {
        let bound = self.min_urb_TxObsS().saturating_add(self.urb_buffer_unit_size());
        self.seq < bound
    }

    /// Room for `msgs` more local URB broadcasts within the window.
    pub fn urb_available_space_for(&self, msgs: Int) -> (r: bool)
        requires
            self.wf(),
        ensures
            r == self.urb_space_for(msgs),
    {
        let bound = self.min_urb_TxObsS().saturating_add(self.urb_buffer_unit_size());
        self.seq as u128 + msgs as u128 <= bound as u128
    }
    /// Records a reception of `tag` relayed by `forwarder`. A tag at or below
    /// `urb_rxObsS` of its sender is already obsolete (`true`, nothing
    /// changes). An unseen tag with a payload creates its record (`false`);
    /// an unseen tag without one is dropped (`false`). A known tag has the
    /// acknowledgement bitmaps merged into its record (`true`).
    pub fn update(
        &mut self,
        msg: Option<Payload>,
        tag: Tag,
        forwarder: NodeId,
        recv_by_bitmap: Option<BitVec>,
        recv_by_trusted_bitmap: Option<BitVec>,
    ) -> (r: bool)
        requires
            old(self).wf(),
            1 <= tag.id <= old(self).n(),
            1 <= forwarder <= old(self).n(),
            recv_by_bitmap matches Some(b) ==> bits_of(b).len() == old(self).n(),
            recv_by_trusted_bitmap matches Some(b) ==> bits_of(b).len() == old(self).n(),
        ensures
            final(self).wf(),
            same_but_buffer(*old(self), *final(self)),
            keeps_delivery(old(self).buffer@, final(self).buffer@),
            final(self).buffer@.len() <= old(self).buffer@.len() + 1,
            forall|j: int| 0 <= j < old(self).buffer@.len() ==> subset_bits(bits_of(old(self).buffer@[j].recBy),
                bits_of(#[trigger] final(self).buffer@[j].recBy)),
            tag.seq <= old(self).urb_rxObsS@[tag.id - 1] ==> r && final(self).buffer == old(self).buffer,
            tag.seq > old(self).urb_rxObsS@[tag.id - 1] && find_tag(old(self).buffer@, tag).is_none()
                && msg.is_some() ==> !r && final(self).buffer@.len() == old(self).buffer@.len() + 1
                && final(self).buffer@.drop_last() == old(self).buffer@
                && is_new_urb_record(final(self).buffer@.last(), tag, msg, old(self).node_id,
                    old(self).n(), opt_bits(recv_by_bitmap)),
            tag.seq > old(self).urb_rxObsS@[tag.id - 1] && find_tag(old(self).buffer@, tag).is_none()
                && msg.is_none() ==> !r && final(self).buffer == old(self).buffer,
            tag.seq > old(self).urb_rxObsS@[tag.id - 1] && find_tag(old(self).buffer@, tag).is_some()
                ==> r && final(self).buffer@.len() == old(self).buffer@.len() && ({
                    let i = find_tag(old(self).buffer@, tag).unwrap();
                    &&& forall|j: int| 0 <= j < old(self).buffer@.len() && j != i ==> final(self).buffer@[j] == old(self).buffer@[j]
                    &&& is_acked_record(old(self).buffer@[i], final(self).buffer@[i], tag, forwarder,
                        old(self).node_id, old(self).trusted_view(), opt_bits(recv_by_bitmap),
                        opt_bits(recv_by_trusted_bitmap))
                }),
    {
        let n = self.settings.number_of_nodes;
        if tag.seq <= self.urb_rxObsS[tag.id - 1] {
            return true;
        }
        let index = self.get_index_by_urb_tag(&tag);
        match index {
            None => {
                if msg.is_none() {
                    return false;
                }
                let mut recBy = bits_filled(n, false);
                bits_set(&mut recBy, self.node_id - 1, true);
                bits_set(&mut recBy, tag.id - 1, true);
                let ghost g2 = bits_of(recBy);
                assert(forall|k: int| 0 <= k < n ==> g2[k] == (k == self.node_id - 1 || k == tag.id - 1));
                match &recv_by_bitmap {
                    Some(b) => bits_or(&mut recBy, b),
                    None => {},
                }
                proof {
                    let want = Seq::new(
                        n as nat,
                        |i: int| i == self.node_id - 1 || i == tag.id - 1 || (opt_bits(recv_by_bitmap).is_some()
                            && opt_bits(recv_by_bitmap).unwrap()[i]),
                    );
                    assert forall|k: int| 0 <= k < n implies bits_of(recBy)[k] == want[k] by {
                        assert(g2[k] == (k == self.node_id - 1 || k == tag.id - 1));
                        if let Some(b) = recv_by_bitmap {
                            assert(opt_bits(recv_by_bitmap).unwrap() == bits_of(b));
                            assert(bits_of(recBy)[k] == (g2[k] || bits_of(b)[k]));
                        } else {
                            assert(bits_of(recBy)[k] == g2[k]);
                        }
                    }
                    assert(bits_of(recBy) =~= Seq::new(
                        n as nat,
                        |i: int| i == self.node_id - 1 || i == tag.id - 1 || (opt_bits(recv_by_bitmap).is_some()
                            && opt_bits(recv_by_bitmap).unwrap()[i]),
                    ));
                }
                let record = BufferRecord {
                    urb_tag: Some(tag),
                    msg,
                    delivered: false,
                    recBy,
                    recBy_trusted: bits_filled(n, false),
                    prevHB: filled_opt(n),
                    urb_needed: true,
                    scd_needed: true,
                    meta: None,
                };
                self.buffer.push(record);
                proof {
                    assert(self.buffer@.drop_last() =~= old(self).buffer@);
                    assert forall|j: int| 0 <= j < self.buffer@.len() implies #[trigger] self.buffer@[j].wf(self.n()) by {
                        if j < old(self).buffer@.len() {
                            assert(self.buffer@[j] == old(self).buffer@[j]);
                        }
                    }
                }
                false
            },
            Some(i) => {
                let ghost r0 = self.buffer@[i as int];
                assert(self.buffer@[i as int].wf(self.n()));
                let ghost t = self.trusted_view();
                bits_set(&mut self.buffer[i].recBy, tag.id - 1, true);
                bits_set(&mut self.buffer[i].recBy, forwarder - 1, true);
                let ghost h2 = bits_of(self.buffer@[i as int].recBy);
                assert(forall|k: int| 0 <= k < self.n() ==> h2[k] == (bits_of(r0.recBy)[k] || k == tag.id - 1 || k == forwarder - 1));
                match &recv_by_bitmap {
                    Some(rb) => {
                        bits_or(&mut self.buffer[i].recBy, rb);
                        assert(forall|k: int| 0 <= k < self.n() ==> bits_of(self.buffer@[i as int].recBy)[k] == (h2[k] || bits_of(*rb)[k]));
                        if is_subset(&self.theta.current_trusted, rb) {
                            bits_set(&mut self.buffer[i].recBy_trusted, tag.id - 1, true);
                            bits_set(&mut self.buffer[i].recBy_trusted, forwarder - 1, true);
                            bits_set(&mut self.buffer[i].recBy_trusted, self.node_id - 1, true);
                        }
                        match &recv_by_trusted_bitmap {
                            Some(rbt) => bits_or(&mut self.buffer[i].recBy_trusted, rbt),
                            None => {},
                        }
                    },
                    None => {},
                }
                proof {
                    assert(bits_of(self.buffer@[i as int].recBy) =~= merged_rec_by(
                        bits_of(r0.recBy), tag, forwarder, opt_bits(recv_by_bitmap)));
                }
                if is_subset(&self.theta.current_trusted, &self.buffer[i].recBy) {
                    bits_set(&mut self.buffer[i].recBy_trusted, self.node_id - 1, true);
                }
                proof {
                    assert(bits_of(self.buffer@[i as int].recBy_trusted) =~= merged_rec_by_trusted(
                        bits_of(r0.recBy), bits_of(r0.recBy_trusted), tag, forwarder, self.node_id,
                        t, opt_bits(recv_by_bitmap), opt_bits(recv_by_trusted_bitmap)));
                    assert forall|j: int| 0 <= j < self.buffer@.len() implies #[trigger] self.buffer@[j].wf(self.n()) by {
                        if j != i {
                            assert(self.buffer@[j] == old(self).buffer@[j]);
                        }
                    }
                }
                true
            },
        }
    }
    /// Broadcasts `msg` with the next local sequence number, or reports
    /// `ErrNoSpace` when the window towards the trusted peers is full.
    pub fn urb_broadcast(&mut self, msg: String) -> (r: StatusCode)
        requires
            old(self).wf(),
        ensures
            final(self).wf(),
            r == StatusCode::ErrNoSpace || r == StatusCode::OK,
            r == StatusCode::ErrNoSpace <==> !old(self).urb_space(),
            r == StatusCode::ErrNoSpace ==> *final(self) == *old(self),
            r == StatusCode::OK ==> final(self).seq == old(self).seq + 1,
            final(self).sn == old(self).sn,
            r == StatusCode::OK ==> final(self).seq <= sat_add(final(self).min_urb_tx(), final(self).urb_unit()),
            keeps_delivery(old(self).buffer@, final(self).buffer@),
            r == StatusCode::OK && old(self).seq + 1 > old(self).urb_rxObsS@[old(self).node_id - 1]
                && find_tag(old(self).buffer@, (Tag { id: old(self).node_id, seq: (old(self).seq + 1) as Int })).is_none()
                ==> final(self).buffer@.drop_last() == old(self).buffer@
                && is_new_urb_record(final(self).buffer@.last(), (Tag { id: old(self).node_id, seq: final(self).seq }),
                    Some(Payload::Text(msg)), old(self).node_id, old(self).n(), None),
    {
        if !self.urb_available_space() {
            return StatusCode::ErrNoSpace;
        }
        self.seq = self.seq + 1;
        let tag = Tag { id: self.node_id, seq: self.seq };
        let _ = self.update(Some(Payload::Text(msg)), tag, self.node_id, None, None);
        StatusCode::OK
    }

    /// URB-broadcasts the payload of the record at `index` when the window
    /// allows, giving the record its URB tag if it has none yet.
    pub fn non_blocking_urb_broadcast(&mut self, msg: Payload, index: usize) -> (r: Option<Tag>)
        requires
            old(self).wf(),
            index < old(self).buffer@.len(),
        ensures
            final(self).wf(),
            final(self).settings == old(self).settings,
            final(self).node_id == old(self).node_id,
            final(self).sn == old(self).sn,
            final(self).next_to_deliver == old(self).next_to_deliver,
            final(self).delivered == old(self).delivered,
            final(self).theta == old(self).theta,
            final(self).outbox == old(self).outbox,
            final(self).urb_rxObsS == old(self).urb_rxObsS,
            final(self).urb_txObsS == old(self).urb_txObsS,
            r.is_none() <==> !old(self).urb_space(),
            r.is_none() ==> *final(self) == *old(self),
            r matches Some(t) ==> t == (Tag { id: old(self).node_id, seq: (old(self).seq + 1) as Int })
                && final(self).seq == t.seq,
            final(self).buffer@.len() >= old(self).buffer@.len(),
            forall|j: int| 0 <= j < old(self).buffer@.len() ==> (#[trigger] final(self).buffer@[j]).delivered
                == old(self).buffer@[j].delivered && final(self).buffer@[j].meta == old(self).buffer@[j].meta
                && final(self).buffer@[j].msg == old(self).buffer@[j].msg,
            r.is_none() ==> final(self).seq == old(self).seq,
            r.is_some() && old(self).buffer@[index as int].urb_tag.is_none()
                ==> final(self).buffer@[index as int].urb_tag == r,
    {
        if !self.urb_available_space() {
            return None;
        }
        self.seq = self.seq + 1;
        let tag = Tag { id: self.node_id, seq: self.seq };
        if self.buffer[index].urb_tag.is_none() {
            self.buffer[index].urb_tag = Some(tag);
            proof {
                assert forall|j: int| 0 <= j < self.buffer@.len() implies #[trigger] self.buffer@[j].wf(self.n()) by {
                    if j != index {
                        assert(self.buffer@[j] == old(self).buffer@[j]);
                    } else {
                        assert(old(self).buffer@[j].wf(self.n()));
                    }
                }
            }
        }
        let ghost mid = self.buffer@;
        let _ = self.update(Some(msg), tag, self.node_id, None, None);
        proof {
            assert forall|j: int| 0 <= j < old(self).buffer@.len() implies (#[trigger] self.buffer@[j]).delivered
                == old(self).buffer@[j].delivered && self.buffer@[j].meta == old(self).buffer@[j].meta
                && self.buffer@[j].msg == old(self).buffer@[j].msg by {
                assert(mid[j].delivered == old(self).buffer@[j].delivered);
                assert(mid[j].msg == old(self).buffer@[j].msg);
            }
        }
        Some(tag)
    }

    /// Merges a peer's URB progress summary: the sequence counter, and the
    /// sender's entries of `urb_rxObsS` and `urb_txObsS`, only ever upwards.
    /// A summary from an unknown node is dropped.
    pub fn GOSSIP_received(&mut self, msg: GOSSIP)
        requires
            old(self).wf(),
        ensures
            gossip_post(*old(self), *final(self), msg),
            final(self).wf(),
            final(self).buffer == old(self).buffer,
            final(self).next_to_deliver == old(self).next_to_deliver,
            final(self).theta == old(self).theta,
            final(self).settings == old(self).settings,
            final(self).delivered == old(self).delivered,
            final(self).gossip_sent == old(self).gossip_sent,
            final(self).hbfd == old(self).hbfd,
            final(self).illegally_triggered_ss == old(self).illegally_triggered_ss,
            final(self).outbox == old(self).outbox,
            1 <= msg.sender <= old(self).n() ==> {
                &&& final(self).seq == if old(self).seq >= msg.urb_maxSeq { old(self).seq } else { msg.urb_maxSeq }
                &&& final(self).urb_rxObsS@ == old(self).urb_rxObsS@.update(msg.sender - 1,
                    if old(self).urb_rxObsS@[msg.sender - 1] >= msg.urb_txObsS { old(self).urb_rxObsS@[msg.sender - 1] } else { msg.urb_txObsS })
                &&& final(self).urb_txObsS@ == old(self).urb_txObsS@.update(msg.sender - 1,
                    if old(self).urb_txObsS@[msg.sender - 1] >= msg.urb_rxObsS { old(self).urb_txObsS@[msg.sender - 1] } else { msg.urb_rxObsS })
            },
            !(1 <= msg.sender <= old(self).n()) ==> *final(self) == *old(self),
    {
        if !(1 <= msg.sender && msg.sender <= self.settings.number_of_nodes) {
            return;
        }
        if msg.urb_maxSeq > self.seq {
            self.seq = msg.urb_maxSeq;
        }
        let k = msg.sender - 1;
        let rx = self.urb_rxObsS[k];
        if msg.urb_txObsS > rx {
            self.urb_rxObsS.set(k, msg.urb_txObsS);
        }
        let tx = self.urb_txObsS[k];
        if msg.urb_rxObsS > tx {
            self.urb_txObsS.set(k, msg.urb_rxObsS);
        }
        proof {
            assert(self.urb_rxObsS@ =~= old(self).urb_rxObsS@.update(msg.sender - 1,
                if old(self).urb_rxObsS@[msg.sender - 1] >= msg.urb_txObsS { old(self).urb_rxObsS@[msg.sender - 1] } else { msg.urb_txObsS }));
            assert(self.urb_txObsS@ =~= old(self).urb_txObsS@.update(msg.sender - 1,
                if old(self).urb_txObsS@[msg.sender - 1] >= msg.urb_rxObsS { old(self).urb_txObsS@[msg.sender - 1] } else { msg.urb_rxObsS }));
        }
    }

    /// Whether the record tagged `urb_tag`, if present, is URB-delivered.
    pub fn urb_has_terminated(&self, urb_tag: Tag) -> (r: bool)
        ensures
            r <==> forall|j: int| 0 <= j < self.buffer@.len() && self.buffer@[j].urb_tag == Some(urb_tag)
                ==> self.buffer@[j].delivered,
    {
        let mut i: usize = 0;
        while i < self.buffer.len()
            invariant
                i <= self.buffer@.len(),
                forall|j: int| 0 <= j < i && self.buffer@[j].urb_tag == Some(urb_tag) ==> self.buffer@[j].delivered,
            decreases self.buffer@.len() - i,
        {
            if self.buffer[i].urb_tag == Some(urb_tag) && !self.buffer[i].delivered {
                return false;
            }
            i = i + 1;
        }
        true
    }
    /// The progress summary this node sends to node `k`.
    pub fn gossip_for(&self, k: NodeId) -> (g: CombinedGossip)
        requires
            self.wf(),
            1 <= k <= self.n(),
        ensures
            g.urb_gossip == (GOSSIP {
                sender: self.node_id,
                urb_maxSeq: self.urb_max_seq(k),
                urb_rxObsS: self.urb_rxObsS@[k - 1],
                urb_txObsS: self.urb_txObsS@[k - 1],
            }),
            g.scd_gossip.sender == self.node_id,
            g.scd_gossip.scd_maxSeq == self.scd_max_seq(k),
            g.scd_gossip.scd_rxObsS == self.scd_rxObsS@[k - 1],
            g.scd_gossip.scd_txObsS == self.scd_txObsS@[k - 1],
            g.scd_gossip.scd_txSpace == self.scd_txSpace@[k - 1],
            g.scd_gossip.scd_rxSpace.is_none() <==> saved_set(self.buffer@, k).is_empty(),
            g.scd_gossip.scd_rxSpace matches Some(m) ==> saved_set(self.buffer@, k).contains(m)
                && forall|v: Int| saved_set(self.buffer@, k).contains(v) ==> m <= v,
    {
        CombinedGossip {
            urb_gossip: GOSSIP {
                sender: self.node_id,
                urb_maxSeq: self.urb_maxSeq(k),
                urb_rxObsS: self.urb_rxObsS[k - 1],
                urb_txObsS: self.urb_txObsS[k - 1],
            },
            scd_gossip: SCDGOSSIP {
                sender: self.node_id,
                scd_maxSeq: self.scd_maxSeq(k),
                scd_rxObsS: self.scd_rxObsS[k - 1],
                scd_txObsS: self.scd_txObsS[k - 1],
                scd_rxSpace: self.min_saved(k),
                scd_txSpace: self.scd_txSpace[k - 1],
            },
        }
    }

    /// URB delivery and retransmission. Records are delivered, in passes
    /// over the buffer until none is left to deliver, when undelivered,
    /// acknowledged by more than half of the trusted nodes and carrying the
    /// next expected sequence number of their sender. Then a record of this
    /// node or of an untrusted sender is resent, with the progress summary
    /// for the receiver, to each node that has not acknowledged it and whose
    /// heartbeat moved since the last send to it, and to every node on a
    /// forced retransmission. Returns the positions delivered, in delivery
    /// order.
    pub fn handle_records_in_buffer(&mut self, should_retransmit: bool) -> (d: Vec<usize>)
        requires
            old(self).wf(),
        ensures
            final(self).wf(),
            final(self).settings == old(self).settings,
            final(self).node_id == old(self).node_id,
            final(self).theta == old(self).theta,
            final(self).hbfd == old(self).hbfd,
            final(self).seq == old(self).seq,
            final(self).sn == old(self).sn,
            final(self).urb_rxObsS == old(self).urb_rxObsS,
            final(self).urb_txObsS == old(self).urb_txObsS,
            final(self).scd_rxObsS == old(self).scd_rxObsS,
            final(self).scd_txObsS == old(self).scd_txObsS,
            final(self).delivered == old(self).delivered,
            final(self).buffer@.len() == old(self).buffer@.len(),
            old(self).outbox@.is_prefix_of(final(self).outbox@),
            d@.no_duplicates(),
            forall|k: int| 0 <= k < d@.len() ==> #[trigger] d@[k] < old(self).buffer@.len(),
            forall|k: int| 0 <= k < d@.len() ==> {
                let r = #[trigger] old(self).buffer@[d@[k] as int];
                &&& d@[k] < old(self).buffer@.len()
                &&& r.urb_tag.is_some()
                &&& !r.delivered
                &&& ack_by_majority(old(self).trusted_view(), bits_of(r.recBy))
            },
            fifo_deliveries(old(self).buffer@, d@, old(self).next_to_deliver@),
            forall|s: int| 1 <= s <= old(self).n() ==> #[trigger] final(self).next_to_deliver@[s - 1]
                == old(self).next_to_deliver@[s - 1] + count_sender(old(self).buffer@, d@, s as NodeId, d@.len() as int),
            forall|j: int| 0 <= j < final(self).buffer@.len() ==> !urb_deliverable(*final(self), #[trigger] final(self).buffer@[j]),
            forall|j: int| 0 <= j < old(self).buffer@.len() ==> {
                let o = old(self).buffer@[j];
                let f = #[trigger] final(self).buffer@[j];
                &&& f.urb_tag == o.urb_tag
                &&& f.msg == o.msg
                &&& f.recBy == o.recBy
                &&& f.recBy_trusted == o.recBy_trusted
                &&& f.meta == o.meta
                &&& f.urb_needed == o.urb_needed
                &&& f.scd_needed == o.scd_needed
                &&& f.delivered == (o.delivered || d@.contains(j as usize))
                &&& f.prevHB@.len() == o.prevHB@.len()
            },
            forall|j: int, k: int| 0 <= j < old(self).buffer@.len() && 0 <= k < old(self).n()
                ==> #[trigger] final(self).buffer@[j].prevHB@[k] == (if resend_to(*old(self), old(self).buffer@[j], k,
                    old(self).hbfd.hb@, should_retransmit) {
                    Some(old(self).hbfd.hb@[k])
                } else {
                    old(self).buffer@[j].prevHB@[k]
                }),
            forall|j: int, k: int| 0 <= j < old(self).buffer@.len() && 0 <= k < old(self).n() && #[trigger] resend_to(
                *old(self), old(self).buffer@[j], k, old(self).hbfd.hb@, should_retransmit)
                ==> exists|q: int| old(self).outbox@.len() <= q < final(self).outbox@.len() && #[trigger] final(self).outbox@[q].0
                == k + 1 && carries_record(final(self).outbox@[q].1, old(self).buffer@[j], old(self).n()),
            forall|q: int| old(self).outbox@.len() <= q < final(self).outbox@.len() ==> is_retransmission(*old(self),
                #[trigger] final(self).outbox@[q]),
    {
        let n = self.settings.number_of_nodes;
        let len = self.buffer.len();
        let hb = self.hbfd.get_hb();
        let ghost b = self.buffer@;
        let ghost nn = self.n();
        let ghost ntd0 = self.next_to_deliver@;
        let mut gossips: Vec<CombinedGossip> = Vec::new();
        let mut g: usize = 1;
        while g <= n
            invariant
                self == old(self),
                self.wf(),
                n == self.n(),
                1 <= g <= n + 1,
                gossips@.len() == g - 1,
            decreases n + 1 - g,
        {
            gossips.push(self.gossip_for(g));
            g = g + 1;
        }
        let mut d: Vec<usize> = Vec::new();
        let mut changed = true;
        while changed
            invariant
                self.wf(),
                n == nn,
                nn == self.n(),
                len == b.len(),
                b == old(self).buffer@,
                ntd0 == old(self).next_to_deliver@,
                self.buffer@.len() == len,
                self.settings == old(self).settings,
                self.node_id == old(self).node_id,
                self.theta == old(self).theta,
                self.hbfd == old(self).hbfd,
                self.seq == old(self).seq,
                self.sn == old(self).sn,
                self.urb_rxObsS == old(self).urb_rxObsS,
                self.urb_txObsS == old(self).urb_txObsS,
                self.scd_rxObsS == old(self).scd_rxObsS,
                self.scd_txObsS == old(self).scd_txObsS,
                self.delivered == old(self).delivered,
                self.outbox == old(self).outbox,
                d@.no_duplicates(),
                forall|k: int| 0 <= k < d@.len() ==> #[trigger] d@[k] < len,
                forall|k: int| 0 <= k < d@.len() ==> (#[trigger] self.buffer@[d@[k] as int]).delivered,
                forall|k: int| 0 <= k < d@.len() ==> {
                    let r = #[trigger] b[d@[k] as int];
                    &&& r.urb_tag.is_some()
                    &&& !r.delivered
                    &&& ack_by_majority(old(self).trusted_view(), bits_of(r.recBy))
                },
                fifo_deliveries(b, d@, ntd0),
                forall|s: int| 1 <= s <= nn ==> #[trigger] self.next_to_deliver@[s - 1]
                    == ntd0[s - 1] + count_sender(b, d@, s as NodeId, d@.len() as int),
                forall|j: int| 0 <= j < len ==> {
                    let o = b[j];
                    let f = #[trigger] self.buffer@[j];
                    &&& f.urb_tag == o.urb_tag
                    &&& f.msg == o.msg
                    &&& f.recBy == o.recBy
                    &&& f.recBy_trusted == o.recBy_trusted
                    &&& f.meta == o.meta
                    &&& f.urb_needed == o.urb_needed
                    &&& f.scd_needed == o.scd_needed
                    &&& f.prevHB == o.prevHB
                    &&& f.delivered == (o.delivered || d@.contains(j as usize))
                },
                !changed ==> forall|j: int| 0 <= j < len ==> !urb_deliverable(*self, #[trigger] self.buffer@[j]),
            decreases count_undelivered(self.buffer@, len as int) + if changed { 1int } else { 0int },
        {
            changed = false;
            let ghost start = self.buffer@;
            let ghost start_ntd = self.next_to_deliver@;
            let mut i: usize = 0;
            while i < len
                invariant
                    self.wf(),
                    n == nn,
                    nn == self.n(),
                    len == b.len(),
                    b == old(self).buffer@,
                    ntd0 == old(self).next_to_deliver@,
                    self.buffer@.len() == len,
                    start.len() == len,
                    i <= len,
                    self.settings == old(self).settings,
                    self.node_id == old(self).node_id,
                    self.theta == old(self).theta,
                    self.hbfd == old(self).hbfd,
                    self.seq == old(self).seq,
                    self.sn == old(self).sn,
                    self.urb_rxObsS == old(self).urb_rxObsS,
                    self.urb_txObsS == old(self).urb_txObsS,
                    self.scd_rxObsS == old(self).scd_rxObsS,
                    self.scd_txObsS == old(self).scd_txObsS,
                    self.delivered == old(self).delivered,
                    self.outbox == old(self).outbox,
                    d@.no_duplicates(),
                    forall|k: int| 0 <= k < d@.len() ==> #[trigger] d@[k] < len,
                    forall|k: int| 0 <= k < d@.len() ==> (#[trigger] self.buffer@[d@[k] as int]).delivered,
                    forall|k: int| 0 <= k < d@.len() ==> {
                        let r = #[trigger] b[d@[k] as int];
                        &&& r.urb_tag.is_some()
                        &&& !r.delivered
                        &&& ack_by_majority(old(self).trusted_view(), bits_of(r.recBy))
                    },
                    fifo_deliveries(b, d@, ntd0),
                    forall|s: int| 1 <= s <= nn ==> #[trigger] self.next_to_deliver@[s - 1]
                        == ntd0[s - 1] + count_sender(b, d@, s as NodeId, d@.len() as int),
                    forall|j: int| 0 <= j < len ==> {
                        let o = b[j];
                        let f = #[trigger] self.buffer@[j];
                        &&& f.urb_tag == o.urb_tag
                        &&& f.msg == o.msg
                        &&& f.recBy == o.recBy
                        &&& f.recBy_trusted == o.recBy_trusted
                        &&& f.meta == o.meta
                        &&& f.urb_needed == o.urb_needed
                        &&& f.scd_needed == o.scd_needed
                        &&& f.prevHB == o.prevHB
                        &&& f.delivered == (o.delivered || d@.contains(j as usize))
                    },
                    changed ==> count_undelivered(self.buffer@, len as int) < count_undelivered(start, len as int),
                    !changed ==> self.buffer@ == start && self.next_to_deliver@ == start_ntd,
                    !changed ==> forall|j: int| 0 <= j < i ==> !urb_deliverable(*self, #[trigger] self.buffer@[j]),
                decreases len - i,
            {
                assert(self.buffer@[i as int].wf(nn));
                match self.buffer[i].urb_tag {
                    Some(t) => {
                        let maj = urb_is_ack_by_majority(&self.theta.current_trusted, &self.buffer[i].recBy);
                        let expected = self.next_to_deliver[t.id - 1];
                        if maj && !self.buffer[i].delivered && t.seq == expected && expected < Int::MAX {
                            let ghost d0 = d@;
                            let ghost pre = self.buffer@;
                            assert(!d0.contains(i)) by {
                                if d0.contains(i) {
                                    let k = choose|k: int| 0 <= k < d0.len() && d0[k] == i;
                                    assert(self.buffer@[d0[k] as int].delivered);
                                }
                            }
                            assert(b[i as int].urb_tag == Some(t));
                            assert(!b[i as int].delivered);
                            self.buffer[i].delivered = true;
                            self.next_to_deliver.set(t.id - 1, expected + 1);
                            d.push(i);
                            proof {
                                assert(d@.drop_last() == d0);
                                lemma_undelivered_drop(pre, self.buffer@, i as int, len as int);
                                if changed {
                                    assert(count_undelivered(pre, len as int) < count_undelivered(start, len as int));
                                }
                                assert forall|s: int| 1 <= s <= nn implies #[trigger] self.next_to_deliver@[s - 1]
                                    == ntd0[s - 1] + count_sender(b, d@, s as NodeId, d@.len() as int) by {
                                    lemma_count_sender_prefix(b, d0, d@, s as NodeId, d0.len() as int);
                                }
                                assert forall|k: int| 0 <= k < d@.len() implies {
                                    let t2 = (#[trigger] b[d@[k] as int]).urb_tag.unwrap();
                                    t2.seq == ntd0[t2.id - 1] + count_sender(b, d@, t2.id, k)
                                } by {
                                    if k < d0.len() {
                                        assert(d@[k] == d0[k]);
                                        lemma_count_sender_prefix(b, d0, d@, b[d@[k] as int].urb_tag.unwrap().id, k);
                                    } else {
                                        lemma_count_sender_prefix(b, d0, d@, t.id, d0.len() as int);
                                    }
                                }
                                assert forall|k: int| 0 <= k < d@.len() implies (#[trigger] self.buffer@[d@[k] as int]).delivered by {
                                    if k < d0.len() {
                                        assert(d@[k] == d0[k]);
                                    }
                                }
                                assert forall|k1: int, k2: int| 0 <= k1 < d@.len() && 0 <= k2 < d@.len() && k1 != k2 implies d@[k1] != d@[k2] by {
                                    if k1 < d0.len() && k2 < d0.len() {
                                        assert(d@[k1] == d0[k1]);
                                        assert(d@[k2] == d0[k2]);
                                    } else if k1 < d0.len() {
                                        assert(d@[k1] == d0[k1]);
                                    } else if k2 < d0.len() {
                                        assert(d@[k2] == d0[k2]);
                                    }
                                }
                                assert forall|j: int| 0 <= j < len implies (#[trigger] self.buffer@[j]).delivered == (b[j].delivered || d@.contains(j as usize)) by {
                                    if j == i {
                                        assert(d@[d0.len() as int] == i);
                                    } else {
                                        assert(self.buffer@[j] == pre[j]);
                                        if d@.contains(j as usize) {
                                            let k = choose|k: int| 0 <= k < d@.len() && d@[k] == j as usize;
                                            assert(k < d0.len());
                                            assert(d0[k] == j as usize);
                                        }
                                        if d0.contains(j as usize) {
                                            let k = choose|k: int| 0 <= k < d0.len() && d0[k] == j as usize;
                                            assert(d@[k] == j as usize);
                                        }
                                    }
                                }
                                assert forall|j: int| 0 <= j < len implies #[trigger] self.buffer@[j].wf(nn) by {
                                    if j != i {
                                        assert(self.buffer@[j] == pre[j]);
                                    } else {
                                        assert(pre[j].wf(nn));
                                    }
                                }
                            }
                            changed = true;
                        }
                    },
                    None => {},
                }
                i = i + 1;
            }
        }
        // Retransmission.
        let ghost after_delivery = *self;
        let mut i: usize = 0;
        while i < len
            invariant
                self.wf(),
                n == nn,
                nn == self.n(),
                len == b.len(),
                b == old(self).buffer@,
                old(self).wf(),
                hb@ == old(self).hbfd.hb@,
                gossips@.len() == n,
                self.buffer@.len() == len,
                i <= len,
                self.settings == old(self).settings,
                self.node_id == old(self).node_id,
                self.theta == old(self).theta,
                self.hbfd == old(self).hbfd,
                self.seq == old(self).seq,
                self.sn == old(self).sn,
                self.urb_rxObsS == old(self).urb_rxObsS,
                self.urb_txObsS == old(self).urb_txObsS,
                self.scd_rxObsS == old(self).scd_rxObsS,
                self.scd_txObsS == old(self).scd_txObsS,
                self.delivered == old(self).delivered,
                self.next_to_deliver == after_delivery.next_to_deliver,
                old(self).outbox@.is_prefix_of(self.outbox@),
                forall|j: int| 0 <= j < len ==> {
                    let o = after_delivery.buffer@[j];
                    let f = #[trigger] self.buffer@[j];
                    &&& f.urb_tag == o.urb_tag
                    &&& f.msg == o.msg
                    &&& f.recBy == o.recBy
                    &&& f.recBy_trusted == o.recBy_trusted
                    &&& f.meta == o.meta
                    &&& f.urb_needed == o.urb_needed
                    &&& f.scd_needed == o.scd_needed
                    &&& f.delivered == o.delivered
                    &&& f.prevHB@.len() == o.prevHB@.len()
                    &&& j >= i ==> f == o
                },
                forall|j: int| 0 <= j < len ==> {
                    let o = b[j];
                    let f = #[trigger] after_delivery.buffer@[j];
                    &&& f.urb_tag == o.urb_tag
                    &&& f.msg == o.msg
                    &&& f.recBy == o.recBy
                    &&& f.recBy_trusted == o.recBy_trusted
                    &&& f.prevHB == o.prevHB
                },
                forall|j: int, k: int| 0 <= j < i && 0 <= k < nn
                    ==> #[trigger] self.buffer@[j].prevHB@[k] == (if resend_to(*old(self), b[j], k, hb@, should_retransmit) {
                        Some(hb@[k])
                    } else {
                        b[j].prevHB@[k]
                    }),
                forall|j: int, k: int| 0 <= j < i && 0 <= k < nn && #[trigger] resend_to(*old(self), b[j], k, hb@, should_retransmit)
                    ==> exists|q: int| old(self).outbox@.len() <= q < self.outbox@.len() && #[trigger] self.outbox@[q].0 == k + 1
                    && carries_record(self.outbox@[q].1, b[j], old(self).n()),
                forall|q: int| old(self).outbox@.len() <= q < self.outbox@.len() ==> is_retransmission(*old(self),
                    #[trigger] self.outbox@[q]),
            decreases len - i,
        {
            assert(self.buffer@[i as int] == after_delivery.buffer@[i as int]);
            assert(b[i as int].wf(nn));
            if self.buffer[i].urb_tag.is_some() {
                let ghost mid = *self;
                self.retransmit(i, should_retransmit, &hb, &gossips);
                proof {
                    assert(resend_to(mid, mid.buffer@[i as int], 0, hb@, should_retransmit) == resend_to(mid, mid.buffer@[i as int], 0, hb@, should_retransmit));
                    assert forall|k: int| 0 <= k < nn implies resend_to(mid, mid.buffer@[i as int], k, hb@, should_retransmit)
                        == resend_to(*old(self), b[i as int], k, hb@, should_retransmit) by {}
                    assert forall|q: int| old(self).outbox@.len() <= q < self.outbox@.len() implies is_retransmission(*old(self),
                        #[trigger] self.outbox@[q]) by {
                        if q < mid.outbox@.len() {
                            assert(self.outbox@[q] == mid.outbox@[q]);
                        } else {
                            assert(mid.buffer@[i as int].urb_tag == b[i as int].urb_tag);
                        }
                    }
                    assert forall|j: int, k: int| 0 <= j < i + 1 && 0 <= k < nn && #[trigger] resend_to(*old(self), b[j], k, hb@, should_retransmit)
                        implies exists|q: int| old(self).outbox@.len() <= q < self.outbox@.len() && #[trigger] self.outbox@[q].0 == k + 1
                        && carries_record(self.outbox@[q].1, b[j], old(self).n()) by {
                        if j < i {
                            let q = choose|q: int| old(self).outbox@.len() <= q < mid.outbox@.len() && #[trigger] mid.outbox@[q].0 == k + 1
                                && carries_record(mid.outbox@[q].1, b[j], old(self).n());
                            assert(self.outbox@[q] == mid.outbox@[q]);
                        } else {
                            assert(resend_to(mid, mid.buffer@[i as int], k, hb@, should_retransmit));
                            let q = choose|q: int| mid.outbox@.len() <= q < self.outbox@.len() && #[trigger] self.outbox@[q].0 == k + 1
                                && carries_record(self.outbox@[q].1, mid.buffer@[i as int], mid.n());
                            assert(mid.outbox@.len() >= old(self).outbox@.len());
                            assert(carries_record(self.outbox@[q].1, mid.buffer@[i as int], old(self).n()));
                            assert(j == i as int);
                            assert(mid.buffer@[i as int].urb_tag == b[i as int].urb_tag);
                            assert(bits_of(mid.buffer@[i as int].recBy) == bits_of(b[i as int].recBy));
                            assert(mid.buffer@[i as int].msg == b[i as int].msg);
                            assert(mid.buffer@[i as int].recBy == b[i as int].recBy);
                            assert(carries_record(self.outbox@[q].1, b[j], old(self).n()));
                        }
                    }
                    assert forall|j: int, k: int| 0 <= j < i + 1 && 0 <= k < nn
                        implies #[trigger] self.buffer@[j].prevHB@[k] == (if resend_to(*old(self), b[j], k, hb@, should_retransmit) {
                            Some(hb@[k])
                        } else {
                            b[j].prevHB@[k]
                        }) by {
                        if j < i {
                            assert(self.buffer@[j] == mid.buffer@[j]);
                        }
                    }
                }
            } else {
                proof {
                    assert forall|j: int, k: int| 0 <= j < i + 1 && 0 <= k < nn
                        implies #[trigger] self.buffer@[j].prevHB@[k] == (if resend_to(*old(self), b[j], k, hb@, should_retransmit) {
                            Some(hb@[k])
                        } else {
                            b[j].prevHB@[k]
                        }) by {}
                }
            }
            i = i + 1;
        }
        proof {
            assert forall|j: int| 0 <= j < len implies !urb_deliverable(*self, #[trigger] self.buffer@[j]) by {
                assert(!urb_deliverable(after_delivery, after_delivery.buffer@[j]));
            }
        }
        d
    }

    /// Resends the record at `index` to the nodes that need it, and records
    /// the heartbeat each was sent at.
    fn retransmit(&mut self, index: usize, should_retransmit: bool, hb: &Vec<Int>, gossips: &Vec<CombinedGossip>)
        requires
            old(self).wf(),
            index < old(self).buffer@.len(),
            old(self).buffer@[index as int].urb_tag.is_some(),
            hb@.len() == old(self).n(),
            gossips@.len() == old(self).n(),
        ensures
            final(self).wf(),
            final(self).settings == old(self).settings,
            final(self).node_id == old(self).node_id,
            final(self).theta == old(self).theta,
            final(self).hbfd == old(self).hbfd,
            final(self).seq == old(self).seq,
            final(self).sn == old(self).sn,
            final(self).urb_rxObsS == old(self).urb_rxObsS,
            final(self).urb_txObsS == old(self).urb_txObsS,
            final(self).next_to_deliver == old(self).next_to_deliver,
            final(self).scd_rxObsS == old(self).scd_rxObsS,
            final(self).scd_txObsS == old(self).scd_txObsS,
            final(self).delivered == old(self).delivered,
            old(self).outbox@.is_prefix_of(final(self).outbox@),
            forall|q: int| old(self).outbox@.len() <= q < final(self).outbox@.len() ==> {
                let e = #[trigger] final(self).outbox@[q];
                e.1 matches WireMessage::Msg(m) && m.sender == old(self).node_id
                    && Some(m.tag) == old(self).buffer@[index as int].urb_tag
                    && (m.tag.id == old(self).node_id || !old(self).trusted_view()[m.tag.id - 1])
            },
            forall|k: int| 0 <= k < old(self).n() && #[trigger] resend_to(*old(self), old(self).buffer@[index as int], k, hb@, should_retransmit)
                ==> exists|q: int| old(self).outbox@.len() <= q < final(self).outbox@.len() && #[trigger] final(self).outbox@[q].0 == k + 1
                && carries_record(final(self).outbox@[q].1, old(self).buffer@[index as int], old(self).n()),
            final(self).buffer@.len() == old(self).buffer@.len(),
            forall|j: int| 0 <= j < old(self).buffer@.len() && j != index ==> #[trigger] final(self).buffer@[j] == old(self).buffer@[j],
            ({
                let o = old(self).buffer@[index as int];
                let f = final(self).buffer@[index as int];
                &&& f.urb_tag == o.urb_tag
                &&& f.msg == o.msg
                &&& f.recBy == o.recBy
                &&& f.recBy_trusted == o.recBy_trusted
                &&& f.meta == o.meta
                &&& f.urb_needed == o.urb_needed
                &&& f.scd_needed == o.scd_needed
                &&& f.delivered == o.delivered
                &&& f.prevHB@.len() == o.prevHB@.len()
                &&& forall|k: int| 0 <= k < old(self).n() ==> #[trigger] f.prevHB@[k] == (if resend_to(*old(self), o, k, hb@, should_retransmit) {
                    Some(hb@[k])
                } else {
                    o.prevHB@[k]
                })
            }),
    {
        let n = self.settings.number_of_nodes;
        let t = self.buffer[index].urb_tag.unwrap();
        assert(self.buffer@[index as int].wf(self.n()));
        let sender_ok = t.id == self.node_id || bits_get(&self.theta.current_trusted, t.id - 1) == Some(false);
        if !sender_ok {
            return;
        }
        let ghost o = self.buffer@[index as int];
        let mut k: usize = 0;
        while k < n
            invariant
                self.wf(),
                n == self.n(),
                k <= n,
                index < self.buffer@.len(),
                self.buffer@.len() == old(self).buffer@.len(),
                hb@.len() == n,
                gossips@.len() == n,
                o == old(self).buffer@[index as int],
                o.urb_tag == Some(t),
                o.wf(n as nat),
                self.settings == old(self).settings,
                self.node_id == old(self).node_id,
                self.theta == old(self).theta,
                self.hbfd == old(self).hbfd,
                self.seq == old(self).seq,
                self.sn == old(self).sn,
                self.urb_rxObsS == old(self).urb_rxObsS,
                self.urb_txObsS == old(self).urb_txObsS,
                self.next_to_deliver == old(self).next_to_deliver,
                self.scd_rxObsS == old(self).scd_rxObsS,
                self.scd_txObsS == old(self).scd_txObsS,
                self.delivered == old(self).delivered,
                old(self).outbox@.is_prefix_of(self.outbox@),
                t.id == old(self).node_id || !old(self).trusted_view()[t.id - 1],
                forall|q: int| old(self).outbox@.len() <= q < self.outbox@.len() ==> {
                    let e = #[trigger] self.outbox@[q];
                    e.1 matches WireMessage::Msg(m) && m.sender == old(self).node_id
                        && Some(m.tag) == old(self).buffer@[index as int].urb_tag
                        && (m.tag.id == old(self).node_id || !old(self).trusted_view()[m.tag.id - 1])
                },
                forall|k2: int| 0 <= k2 < k && #[trigger] resend_to(*old(self), o, k2, hb@, should_retransmit)
                    ==> exists|q: int| old(self).outbox@.len() <= q < self.outbox@.len() && #[trigger] self.outbox@[q].0 == k2 + 1
                    && carries_record(self.outbox@[q].1, o, old(self).n()),
                forall|j: int| 0 <= j < old(self).buffer@.len() && j != index ==> #[trigger] self.buffer@[j] == old(self).buffer@[j],
                ({
                    let f = self.buffer@[index as int];
                    &&& f.urb_tag == o.urb_tag
                    &&& f.msg == o.msg
                    &&& f.recBy == o.recBy
                    &&& f.recBy_trusted == o.recBy_trusted
                    &&& f.meta == o.meta
                    &&& f.urb_needed == o.urb_needed
                    &&& f.scd_needed == o.scd_needed
                    &&& f.delivered == o.delivered
                    &&& f.prevHB@.len() == o.prevHB@.len()
                    &&& forall|k2: int| 0 <= k2 < k ==> #[trigger] f.prevHB@[k2] == (if resend_to(*old(self), o, k2, hb@, should_retransmit) {
                        Some(hb@[k2])
                    } else {
                        o.prevHB@[k2]
                    })
                    &&& forall|k2: int| k <= k2 < n ==> #[trigger] f.prevHB@[k2] == o.prevHB@[k2]
                }),
            decreases n - k,
        {
            assert(self.buffer@[index as int].wf(n as nat));
            let acked = bits_get(&self.buffer[index].recBy, k) == Some(true);
            let acked_t = bits_get(&self.buffer[index].recBy_trusted, k) == Some(true);
            let behind = t.id == self.node_id && self.urb_txObsS[k] < Int::MAX && t.seq == self.urb_txObsS[k] + 1;
            let needs = !acked || !acked_t || behind;
            let moved = match self.buffer[index].prevHB[k] {
                Some(p) => p < hb[k],
                None => true,
            };
            assert((((needs && moved) || should_retransmit)) == resend_to(*old(self), o, k as int, hb@, should_retransmit));
            if (needs && moved) || should_retransmit {
                let m = MSG {
                    sender: self.node_id,
                    msg: copy_payload(&self.buffer[index].msg),
                    tag: t,
                    recv_by: bits_to_bytes(&self.buffer[index].recBy),
                    recv_by_trusted: bits_to_bytes(&self.buffer[index].recBy_trusted),
                    gossip: gossips[k],
                };
                let ghost ob = self.outbox@;
                self.outbox.push((k + 1, WireMessage::Msg(m)));
                let ghost pre = self.buffer@;
                self.buffer[index].prevHB.set(k, Some(hb[k]));
                proof {
                    assert(old(self).outbox@.is_prefix_of(self.outbox@)) by {
                        assert(forall|q: int| 0 <= q < ob.len() ==> self.outbox@[q] == ob[q]);
                    }
                    assert(self.outbox@[ob.len() as int].0 == k + 1);
                    assert(((n + 7) / 8) * 8 >= n) by (nonlinear_arith);
                    assert(carries_record(self.outbox@[ob.len() as int].1, o, old(self).n()));
                    assert forall|k2: int| 0 <= k2 < k + 1 && #[trigger] resend_to(*old(self), o, k2, hb@, should_retransmit)
                        implies exists|q: int| old(self).outbox@.len() <= q < self.outbox@.len() && #[trigger] self.outbox@[q].0 == k2 + 1
                        && carries_record(self.outbox@[q].1, o, old(self).n()) by {
                        if k2 < k {
                            let q = choose|q: int| old(self).outbox@.len() <= q < ob.len() && #[trigger] ob[q].0 == k2 + 1
                                && carries_record(ob[q].1, o, old(self).n());
                            assert(self.outbox@[q] == ob[q]);
                        } else {
                            assert(self.outbox@[ob.len() as int].0 == k2 + 1);
                        }
                    }
                    assert forall|j: int| 0 <= j < self.buffer@.len() implies #[trigger] self.buffer@[j].wf(self.n()) by {
                        if j != index {
                            assert(self.buffer@[j] == pre[j]);
                        } else {
                            assert(pre[j].wf(self.n()));
                        }
                    }
                }
            }
            k = k + 1;
        }
    }
}

/// Number of undelivered records among the first `k`.
pub open spec fn count_undelivered(b: Seq<BufferRecord>, k: int) -> nat
    decreases k,
{
    if k <= 0 {
        0
    } else {
        count_undelivered(b, k - 1) + if !b[k - 1].delivered { 1nat } else { 0nat }
    }
}

/// Marking one undelivered record delivered lowers the count by one.
pub proof fn lemma_undelivered_drop(b1: Seq<BufferRecord>, b2: Seq<BufferRecord>, j: int, k: int)
    requires
        0 <= j,
        0 <= k <= b1.len(),
        b1.len() == b2.len(),
        j < b1.len(),
        forall|i: int| 0 <= i < b1.len() && i != j ==> b1[i].delivered == b2[i].delivered,
        !b1[j].delivered,
        b2[j].delivered,
    ensures
        count_undelivered(b2, k) + (if j < k { 1int } else { 0int }) == count_undelivered(b1, k),
    decreases k,
{
    if k > 0 {
        lemma_undelivered_drop(b1, b2, j, k - 1);
    }
}

/// When some record carries `tag`, `find_tag` gives the first one.
pub proof fn lemma_find_tag_first(buf: Seq<BufferRecord>, tag: Tag, i: int)
    requires
        0 <= i < buf.len(),
        buf[i].urb_tag == Some(tag),
    ensures
        find_tag(buf, tag) matches Some(c) && 0 <= c <= i && buf[c].urb_tag == Some(tag)
            && forall|j: int| 0 <= j < c ==> buf[j].urb_tag != Some(tag),
    decreases i,
{
    if exists|j: int| 0 <= j < i && buf[j].urb_tag == Some(tag) {
        let j = choose|j: int| 0 <= j < i && buf[j].urb_tag == Some(tag);
        lemma_find_tag_first(buf, tag, j);
    } else {
        assert(0 <= i < buf.len() && buf[i].urb_tag == Some(tag) && forall|j: int| 0 <= j < i ==> buf[j].urb_tag != Some(tag));
    }
    let c = find_tag(buf, tag).unwrap();
    if c > i {
        assert(buf[i].urb_tag != Some(tag));
    }
}

/// Extending the deliveries does not change the counts over a prefix.
pub proof fn lemma_count_sender_prefix(b: Seq<BufferRecord>, d0: Seq<usize>, d: Seq<usize>, s: NodeId, k: int)
    requires
        0 <= k <= d0.len(),
        d0.len() <= d.len(),
        forall|q: int| 0 <= q < d0.len() ==> d[q] == d0[q],
    ensures
        count_sender(b, d, s, k) == count_sender(b, d0, s, k),
    decreases k,
{
    if k > 0 {
        lemma_count_sender_prefix(b, d0, d, s, k - 1);
    }
}

} // verus!
