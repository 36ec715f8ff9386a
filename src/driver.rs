use vstd::prelude::*;
use crate::step::{gossip_step, lemma_gossips_step, gossip_post, scd_gossip_post, acks_applied, acks_of, fd_post, forwards_applied, forwards_of, gossips_applied, gossips_of, intake_all, intake_step, msgs_applied, msgs_of, same_but_gossip_sent, scd_iter_post, tick_post, urb_iter_post};
use vstd::string::StringSliceAdditionalSpecFns;
use vstd::utf8::encode_utf8;
use bit_vec::BitVec;
use crate::bits::{subset_bits, bits_of, is_subset, bits_to_bytes};
use crate::messages::{has_prefix, copy_payload, same_payload, HbfdMessage, Payload, MSG, GOSSIP, SCDGOSSIP, ThetafdMessage, WireMessage, FORWARD, MSGAck};
use crate::node::{Delivery, filled_bool, MergedNode};
use crate::recovery::urb_buffer_corrupt;
use crate::scd::{is_safe_set, find_scd, is_new_scd_record, max_int};
use crate::urb::{find_tag, is_new_urb_record, urb_deliverable};
use crate::scd_gc::{scd_buffer_dup_or_unknown, scd_buffer_over_window};
use crate::types::{Int, NodeId, StatusCode, Tag, Variant};

verus! {

/// A client operation handed to the node.
#[derive(Clone, Debug, PartialEq, Eq)]
pub enum ClientOp {
    Broadcast(String),
    CounterIncrease,
    CounterDecrease,
    CounterRead,
}

/// Whether two strings have the same bytes.
pub fn same_text(a: &str, b: &str) -> (r: bool)
    ensures
        r == (a.spec_bytes() == b.spec_bytes()),
{
    if a.as_bytes().len() != b.as_bytes().len() {
        return false;
    }
    let r = has_prefix(a, b);
    proof {
        assert(a.spec_bytes().subrange(0, a.spec_bytes().len() as int) =~= a.spec_bytes());
        if r {
            assert(a.spec_bytes().subrange(0, b.spec_bytes().len() as int) == b.spec_bytes());
            assert(a.spec_bytes().subrange(0, a.spec_bytes().len() as int) =~= a.spec_bytes());
        }
    }
    r
}

/// Reads a client request: the three counter commands by name, anything
/// else a payload to broadcast.
pub fn parse_client_op(line: String) -> (r: ClientOp)
    ensures
        encode_utf8(line@) == "COUNTER_INCREASE".spec_bytes() ==> r == ClientOp::CounterIncrease,
        encode_utf8(line@) != "COUNTER_INCREASE".spec_bytes() && encode_utf8(line@) == "COUNTER_DECREASE".spec_bytes()
            ==> r == ClientOp::CounterDecrease,
        encode_utf8(line@) != "COUNTER_INCREASE".spec_bytes() && encode_utf8(line@) != "COUNTER_DECREASE".spec_bytes()
            && encode_utf8(line@) == "COUNTER_READ".spec_bytes() ==> r == ClientOp::CounterRead,
        encode_utf8(line@) != "COUNTER_INCREASE".spec_bytes() && encode_utf8(line@) != "COUNTER_DECREASE".spec_bytes()
            && encode_utf8(line@) != "COUNTER_READ".spec_bytes() ==> r == ClientOp::Broadcast(line),
{
    if same_text(line.as_str(), "COUNTER_INCREASE") {
        ClientOp::CounterIncrease
    } else if same_text(line.as_str(), "COUNTER_DECREASE") {
        ClientOp::CounterDecrease
    } else if same_text(line.as_str(), "COUNTER_READ") {
        ClientOp::CounterRead
    } else {
        ClientOp::Broadcast(line)
    }
}

/// The URB invariants that a recovery round restores hold in `r`.
pub open spec fn urb_recovered(o: MergedNode, r: MergedNode) -> bool {
    &&& r.wf()
    &&& r.settings == o.settings
    &&& !urb_buffer_corrupt(r.buffer@)
    &&& (r.min_urb_tx() < Int::MAX ==> r.urb_seq_reasonable() && r.urb_seq_complete())
    &&& r.urb_rx_bounded()
}

/// The SCD invariants that a recovery round restores hold in `r`.
pub open spec fn scd_recovered(o: MergedNode, r: MergedNode) -> bool {
    &&& r.wf()
    &&& r.settings == o.settings
    &&& !scd_buffer_dup_or_unknown(r.buffer@, r.node_id)
    &&& !scd_buffer_over_window(r)
    &&& (r.sn >= 1 && r.min_scd_tx() < Int::MAX ==> r.scd_sn_reasonable())
}

/// Going from `p` to `q`, every record of every safe set of `p` was
/// SCD-delivered: no set that could be delivered is left waiting.
pub open spec fn scd_batch_done(p: MergedNode, q: MergedNode) -> bool {
    &&& q.buffer@.len() == p.buffer@.len()
    &&& forall|S: Set<int>| #[trigger] is_safe_set(p.buffer@, S, p.n()) ==> forall|i: int| S.contains(i)
        ==> q.buffer@[i].meta.is_some() && q.buffer@[i].meta.unwrap().delivered
}

/// `new` extends `old` with URB deliveries only (`urb`) or SCD batches only.
pub open spec fn appended_only(old: Seq<Delivery>, new: Seq<Delivery>, urb: bool) -> bool {
    &&& old.is_prefix_of(new)
    &&& forall|q: int| old.len() <= q < new.len() ==> ((#[trigger] new[q]) is Urb) == urb
}

/// Ticks an empty buffer must last before a stopping node ends its run.
pub const QUIET_TICKS: u64 = 200;

/// Ticks after which a stopping node ends its run in any case, unless four
/// recovery intervals take longer.
pub const MAX_DRAIN_TICKS: u64 = 5000;

/// Ticks per node id before a failing node injects its fault.
pub const ITERATIONS_UNTIL_FAIL: u64 = 100;

/// Whether a node told to stop ends its run after `iter` ticks of draining,
/// the last `quiet` of which found its buffer empty: after a quiet stretch,
/// or after `max(MAX_DRAIN_TICKS, 4 * delta)` ticks.
pub fn should_stop_draining(iter: u64, quiet: u64, delta: u64) -> (r: bool)
    ensures
        r == ((quiet >= QUIET_TICKS && iter > QUIET_TICKS) || iter > (if MAX_DRAIN_TICKS >= 4 * delta {
            MAX_DRAIN_TICKS as int
        } else {
            4 * delta
        })),
{
    let four = (delta as u128) * 4;
    let limit: u128 = if (MAX_DRAIN_TICKS as u128) >= four { MAX_DRAIN_TICKS as u128 } else { four };
    (quiet >= QUIET_TICKS && iter > QUIET_TICKS) || (iter as u128) > limit
}

/// Whether node `node_id`, configured to fail, injects its fault now: once,
/// after `ITERATIONS_UNTIL_FAIL * node_id` ticks.
pub fn fault_due(iterations: u64, node_id: NodeId, is_failing_node: bool, has_failed: bool) -> (r: bool)
    ensures
        r == (is_failing_node && !has_failed && iterations > ITERATIONS_UNTIL_FAIL * node_id),
{
    is_failing_node && !has_failed && (iterations as u128) > (ITERATIONS_UNTIL_FAIL as u128) * (node_id as u128)
}

/// `k` is one of the node ids `1..=hi`.
pub open spec fn node_in(k: int, hi: int) -> bool {
    1 <= k <= hi
}

/// A counter one higher, stopping at the largest value.
pub open spec fn sat_inc(v: Int) -> Int {
    if v < Int::MAX { (v + 1) as Int } else { Int::MAX }
}

/// Node `k` is a peer that has not been sent a summary in this tick.
pub open spec fn gossip_pending(node: MergedNode, k: int) -> bool {
    1 <= k <= node.n() && k != node.node_id && !node.gossip_sent@[k - 1]
}

/// The URB progress summary `node` sends to node `k`.
pub open spec fn urb_summary_for(node: MergedNode, k: int) -> GOSSIP {
    GOSSIP {
        sender: node.node_id,
        urb_maxSeq: node.urb_max_seq(k as NodeId),
        urb_rxObsS: node.urb_rxObsS@[k - 1],
        urb_txObsS: node.urb_txObsS@[k - 1],
    }
}

impl MergedNode {
    /// Sends this node's URB progress summary to each peer not yet sent
    /// one in this tick, and applies its own summary to itself.
    #[verifier::rlimit(40)]
    pub fn gossip(&mut self)
        requires
            old(self).wf(),
        ensures
            final(self).wf(),
            final(self).buffer == old(self).buffer,
            final(self).settings == old(self).settings,
            final(self).next_to_deliver == old(self).next_to_deliver,
            final(self).delivered == old(self).delivered,
            final(self).theta == old(self).theta,
            old(self).outbox@.is_prefix_of(final(self).outbox@),
            final(self).seq == max_int(old(self).seq, old(self).urb_max_seq(old(self).node_id)),
            forall|k: int| 1 <= k <= old(self).n() && #[trigger] gossip_pending(*old(self), k)
                ==> exists|q: int| old(self).outbox@.len() <= q < final(self).outbox@.len()
                && #[trigger] final(self).outbox@[q] == (k as NodeId, WireMessage::Gossip(urb_summary_for(*old(self), k))),
            forall|q: int| old(self).outbox@.len() <= q < final(self).outbox@.len() ==> gossip_pending(*old(self),
                (#[trigger] final(self).outbox@[q]).0 as int) && final(self).outbox@[q].1 == WireMessage::Gossip(
                urb_summary_for(*old(self), final(self).outbox@[q].0 as int)),
    {
        let n = self.settings.number_of_nodes;
        let mut k: usize = 1;
        while k <= n
            invariant
                self.wf(),
                n == self.n(),
                1 <= k <= n + 1,
                self.buffer == old(self).buffer,
                self.settings == old(self).settings,
                self.node_id == old(self).node_id,
                self.seq == old(self).seq,
                self.next_to_deliver == old(self).next_to_deliver,
                self.delivered == old(self).delivered,
                self.urb_rxObsS == old(self).urb_rxObsS,
                self.urb_txObsS == old(self).urb_txObsS,
                self.theta == old(self).theta,
                self.gossip_sent == old(self).gossip_sent,
                old(self).outbox@.is_prefix_of(self.outbox@),
                forall|k2: int| 1 <= k2 < k && #[trigger] gossip_pending(*old(self), k2)
                    ==> exists|q: int| old(self).outbox@.len() <= q < self.outbox@.len()
                    && #[trigger] self.outbox@[q] == (k2 as NodeId, WireMessage::Gossip(urb_summary_for(*old(self), k2))),
                forall|q: int| old(self).outbox@.len() <= q < self.outbox@.len() ==> gossip_pending(*old(self),
                    (#[trigger] self.outbox@[q]).0 as int) && self.outbox@[q].1 == WireMessage::Gossip(
                    urb_summary_for(*old(self), self.outbox@[q].0 as int)),
            decreases n + 1 - k,
        {
            let ghost ob0 = self.outbox@;
            if k != self.node_id && !self.gossip_sent[k - 1] {
                let g = GOSSIP {
                    sender: self.node_id,
                    urb_maxSeq: self.urb_maxSeq(k),
                    urb_rxObsS: self.urb_rxObsS[k - 1],
                    urb_txObsS: self.urb_txObsS[k - 1],
                };
                let ghost ob = self.outbox@;
                self.outbox.push((k, WireMessage::Gossip(g)));
                proof {
                    assert(forall|q: int| 0 <= q < ob.len() ==> self.outbox@[q] == ob[q]);
                    assert(self.outbox@[ob.len() as int] == (k, WireMessage::Gossip(urb_summary_for(*old(self), k as int))));
                    assert(gossip_pending(*old(self), k as int));
                    assert forall|k2: int| 1 <= k2 < k + 1 && #[trigger] gossip_pending(*old(self), k2)
                        implies exists|q: int| old(self).outbox@.len() <= q < self.outbox@.len()
                        && #[trigger] self.outbox@[q] == (k2 as NodeId, WireMessage::Gossip(urb_summary_for(*old(self), k2))) by {
                        if k2 < k {
                            let q = choose|q: int| old(self).outbox@.len() <= q < ob.len()
                                && #[trigger] ob[q] == (k2 as NodeId, WireMessage::Gossip(urb_summary_for(*old(self), k2)));
                            assert(self.outbox@[q] == ob[q]);
                        } else {
                            assert(self.outbox@[ob.len() as int] == (k2 as NodeId, WireMessage::Gossip(urb_summary_for(*old(self), k2))));
                        }
                    }
                }
            }
            k = k + 1;
        }
        let me = self.node_id;
        let own = GOSSIP {
            sender: me,
            urb_maxSeq: self.urb_maxSeq(me),
            urb_rxObsS: self.urb_rxObsS[me - 1],
            urb_txObsS: self.urb_txObsS[me - 1],
        };
        let ghost ob = self.outbox@;
        self.GOSSIP_received(own);
        proof {
            assert forall|q: int| old(self).outbox@.len() <= q < self.outbox@.len() implies gossip_pending(*old(self),
                (#[trigger] self.outbox@[q]).0 as int) && self.outbox@[q].1 == WireMessage::Gossip(
                urb_summary_for(*old(self), self.outbox@[q].0 as int)) by {
                assert(self.outbox@[q] == ob[q]);
            }
            assert forall|k: int| 1 <= k <= old(self).n() && #[trigger] gossip_pending(*old(self), k)
                implies exists|q: int| old(self).outbox@.len() <= q < self.outbox@.len()
                && #[trigger] self.outbox@[q] == (k as NodeId, WireMessage::Gossip(urb_summary_for(*old(self), k))) by {
                let q = choose|q: int| old(self).outbox@.len() <= q < ob.len()
                    && #[trigger] ob[q] == (k as NodeId, WireMessage::Gossip(urb_summary_for(*old(self), k)));
                assert(self.outbox@[q] == ob[q]);
            }
        }
    }

    /// Sends this node's SCD progress summary to each peer not yet sent one
    /// in this tick, recording the space hint sent, and applies its own
    /// summary to itself.
    #[verifier::rlimit(40)]
    pub fn scd_gossip(&mut self)
        requires
            old(self).wf(),
        ensures
            final(self).wf(),
            final(self).buffer == old(self).buffer,
            final(self).settings == old(self).settings,
            final(self).seq == old(self).seq,
            final(self).next_to_deliver == old(self).next_to_deliver,
            final(self).delivered == old(self).delivered,
            old(self).outbox@.is_prefix_of(final(self).outbox@),
            forall|q: int| old(self).outbox@.len() <= q < final(self).outbox@.len() ==> gossip_pending(*old(self),
                (#[trigger] final(self).outbox@[q]).0 as int) && (final(self).outbox@[q].1 matches WireMessage::ScdGossip(g)
                && g.sender == old(self).node_id && g.scd_maxSeq == old(self).scd_max_seq(final(self).outbox@[q].0)
                && g.scd_rxObsS == old(self).scd_rxObsS@[final(self).outbox@[q].0 - 1]
                && g.scd_txObsS == old(self).scd_txObsS@[final(self).outbox@[q].0 - 1]
                && g.scd_txSpace == old(self).scd_txSpace@[final(self).outbox@[q].0 - 1]),
            final(self).sn == max_int(old(self).sn, old(self).scd_max_seq(old(self).node_id)),
    {
        let n = self.settings.number_of_nodes;
        let mut k: usize = 1;
        while k <= n
            invariant
                self.wf(),
                n == self.n(),
                1 <= k <= n + 1,
                self.buffer == old(self).buffer,
                self.settings == old(self).settings,
                self.node_id == old(self).node_id,
                self.seq == old(self).seq,
                self.sn == old(self).sn,
                self.next_to_deliver == old(self).next_to_deliver,
                self.delivered == old(self).delivered,
                self.scd_rxObsS == old(self).scd_rxObsS,
                self.scd_txObsS == old(self).scd_txObsS,
                self.theta == old(self).theta,
                self.gossip_sent == old(self).gossip_sent,
                old(self).outbox@.is_prefix_of(self.outbox@),
                self.scd_txSpace == old(self).scd_txSpace,
                forall|q: int| old(self).outbox@.len() <= q < self.outbox@.len() ==> gossip_pending(*old(self),
                (#[trigger] self.outbox@[q]).0 as int) && (self.outbox@[q].1 matches WireMessage::ScdGossip(g)
                && g.sender == old(self).node_id && g.scd_maxSeq == old(self).scd_max_seq(self.outbox@[q].0)
                && g.scd_rxObsS == old(self).scd_rxObsS@[self.outbox@[q].0 - 1]
                && g.scd_txObsS == old(self).scd_txObsS@[self.outbox@[q].0 - 1]
                && g.scd_txSpace == old(self).scd_txSpace@[self.outbox@[q].0 - 1]),
            decreases n + 1 - k,
        {
            if k != self.node_id && !self.gossip_sent[k - 1] {
                let space = self.space_hint(k);
                self.scd_rxSpace.set(k - 1, space);
                let g = SCDGOSSIP {
                    sender: self.node_id,
                    scd_maxSeq: self.scd_maxSeq(k),
                    scd_rxObsS: self.scd_rxObsS[k - 1],
                    scd_txObsS: self.scd_txObsS[k - 1],
                    scd_rxSpace: space,
                    scd_txSpace: self.scd_txSpace[k - 1],
                };
                let ghost ob = self.outbox@;
                self.outbox.push((k, WireMessage::ScdGossip(g)));
                proof {
                    assert(forall|q: int| 0 <= q < ob.len() ==> self.outbox@[q] == ob[q]);
                    assert(gossip_pending(*old(self), k as int));
                }
            }
            k = k + 1;
        }
        let me = self.node_id;
        let space = self.space_hint(me);
        self.scd_rxSpace.set(me - 1, space);
        let own = SCDGOSSIP {
            sender: me,
            scd_maxSeq: self.scd_maxSeq(me),
            scd_rxObsS: self.scd_rxObsS[me - 1],
            scd_txObsS: self.scd_txObsS[me - 1],
            scd_rxSpace: space,
            scd_txSpace: self.scd_txSpace[me - 1],
        };
        let ghost ob = self.outbox@;
        self.SCDGOSSIP_received(own);
        proof {
            assert forall|q: int| old(self).outbox@.len() <= q < self.outbox@.len() implies #[trigger] self.outbox@[q] == ob[q] by {}
        }
    }

    /// The space hint for node `k`: the smallest of its sequence numbers
    /// still held, capped at one above its `scd_rxObsS` entry; `None` when
    /// none is held.
    pub fn space_hint(&self, k: NodeId) -> (r: Option<Int>)
        requires
            self.wf(),
            1 <= k <= self.n(),
        ensures
            r.is_none() <==> crate::scd::saved_set(self.buffer@, k).is_empty(),
            r matches Some(v) ==> v <= self.scd_rxObsS@[k - 1] + 1,
    {
        match self.min_saved(k) {
            None => None,
            Some(m) => {
                let cap = self.scd_rxObsS[k - 1].saturating_add(1);
                Some(if m < cap { m } else { cap })
            },
        }
    }

    /// When a record is delivered before every trusted node acknowledged
    /// it, sends it once more to every node so that none is left behind.
    pub fn victory_round(&mut self, tag: Tag, index: usize)
        requires
            old(self).wf(),
            index < old(self).buffer@.len(),
        ensures
            final(self).wf(),
            final(self).buffer == old(self).buffer,
            final(self).settings == old(self).settings,
            final(self).seq == old(self).seq,
            final(self).sn == old(self).sn,
            final(self).next_to_deliver == old(self).next_to_deliver,
            final(self).delivered == old(self).delivered,
            final(self).theta == old(self).theta,
            old(self).outbox@.is_prefix_of(final(self).outbox@),
            subset_bits(old(self).trusted_view(), bits_of(old(self).buffer@[index as int].recBy))
                ==> final(self).outbox == old(self).outbox,
            !subset_bits(old(self).trusted_view(), bits_of(old(self).buffer@[index as int].recBy))
                ==> final(self).outbox@.len() == old(self).outbox@.len() + old(self).n()
                && forall|q: int| 0 <= q < old(self).n() ==> {
                    let e = #[trigger] final(self).outbox@[old(self).outbox@.len() + q];
                    &&& e.0 == q + 1
                    &&& e.1 matches WireMessage::Msg(m) && m.tag == tag && m.sender == old(self).node_id
                        && same_payload(m.msg, old(self).buffer@[index as int].msg)
                },
    {
        assert(self.buffer@[index as int].wf(self.n()));
        if is_subset(&self.theta.current_trusted, &self.buffer[index].recBy) {
            return;
        }
        let n = self.settings.number_of_nodes;
        let mut k: usize = 1;
        while k <= n
            invariant
                self.wf(),
                n == self.n(),
                1 <= k <= n + 1,
                index < self.buffer@.len(),
                self.buffer == old(self).buffer,
                self.settings == old(self).settings,
                self.seq == old(self).seq,
                self.sn == old(self).sn,
                self.next_to_deliver == old(self).next_to_deliver,
                self.delivered == old(self).delivered,
                self.theta == old(self).theta,
                self.node_id == old(self).node_id,
                old(self).outbox@.is_prefix_of(self.outbox@),
                self.outbox@.len() == old(self).outbox@.len() + k - 1,
                forall|q: int| 0 <= q < k - 1 ==> {
                    let e = #[trigger] self.outbox@[old(self).outbox@.len() + q];
                    &&& e.0 == q + 1
                    &&& e.1 matches WireMessage::Msg(m) && m.tag == tag && m.sender == old(self).node_id
                        && same_payload(m.msg, old(self).buffer@[index as int].msg)
                },
            decreases n + 1 - k,
        {
            let mut g = self.gossip_for(k);
            match self.settings.variant {
                Variant::URB => {
                    g.scd_gossip = SCDGOSSIP {
                        sender: self.node_id,
                        scd_maxSeq: 0,
                        scd_rxObsS: 0,
                        scd_txObsS: 0,
                        scd_rxSpace: Some(0),
                        scd_txSpace: Some(0),
                    };
                },
                _ => {},
            }
            assert(self.buffer@[index as int].wf(self.n()));
            let m = MSG {
                sender: self.node_id,
                msg: copy_payload(&self.buffer[index].msg),
                tag,
                recv_by: bits_to_bytes(&self.buffer[index].recBy),
                recv_by_trusted: bits_to_bytes(&self.buffer[index].recBy_trusted),
                gossip: g,
            };
            let ghost ob = self.outbox@;
            self.outbox.push((k, WireMessage::Msg(m)));
            proof {
                assert(forall|q: int| 0 <= q < ob.len() ==> self.outbox@[q] == ob[q]);
            }
            k = k + 1;
        }
    }
}

impl MergedNode {
    /// URB self-stabilization: a consistent buffer, a sequence number
    /// within the window above the trusted minimum, and `urb_rxObsS`
    /// within a window of the largest sequence numbers known.
    pub fn self_stabilizing_recovery(&mut self)
        requires
            old(self).wf(),
        ensures
            old(self).delivered@.is_prefix_of(final(self).delivered@),
            final(self).wf(),
            final(self).settings == old(self).settings,
            final(self).seq == old(self).seq,
            !urb_buffer_corrupt(final(self).buffer@),
            final(self).min_urb_tx() < Int::MAX ==> final(self).urb_seq_reasonable() && final(self).urb_seq_complete(),
            final(self).urb_rx_bounded(),
            final(self).delivered == old(self).delivered,
    {
        self.clean_buffer_if_corrupted();
        self.reset_urb_txObsS_if_corrupted();
        self.adjust_urb_rxObsS_and_next_to_deliver_if_corrupted();
    }

    /// SCD self-stabilization: a consistent SCD buffer within the window,
    /// and an SCD counter above the trusted minimum of `scd_txObsS`.
    pub fn scd_stabilizing_recovery(&mut self)
        requires
            old(self).wf(),
        ensures
            old(self).delivered@.is_prefix_of(final(self).delivered@),
            final(self).wf(),
            final(self).settings == old(self).settings,
            final(self).sn == old(self).sn,
            !scd_buffer_dup_or_unknown(final(self).buffer@, final(self).node_id),
            !scd_buffer_over_window(*final(self)),
            final(self).sn >= 1 && final(self).min_scd_tx() < Int::MAX ==> final(self).scd_sn_reasonable(),
            final(self).delivered == old(self).delivered,
    {
        self.scd_clean_buffer_if_corrupted();
        proof {
            if self.buffer@.len() == 0 {
                assert forall|k: int| 1 <= k <= self.n() implies #[trigger] crate::scd::saved_set(self.buffer@, k as NodeId).len()
                    <= self.settings.window_size by {
                    assert(crate::scd::saved_set(self.buffer@, k as NodeId) =~= Set::<Int>::empty());
                }
            }
        }
        self.reset_scd_txObsS_if_corrupted();
    }

    /// One URB iteration: recovery when due, delivery and retransmission,
    /// hand-over of the deliveries, garbage collection, and gossip when due.
    pub fn urb_loop_iter(&mut self, should_execute_self_stab_statement: bool)
        requires
            old(self).wf(),
        ensures
            urb_iter_post(*old(self), *final(self), should_execute_self_stab_statement),
            old(self).delivered@.is_prefix_of(final(self).delivered@),
            final(self).wf(),
            final(self).settings == old(self).settings,
            forall|j: int| 0 <= j < final(self).buffer@.len() ==> !urb_deliverable(*final(self), #[trigger] final(self).buffer@[j]),
            appended_only(old(self).delivered@, final(self).delivered@, old(self).settings.variant == Variant::URB),
            old(self).settings.variant != Variant::URB ==> final(self).delivered == old(self).delivered,
            should_execute_self_stab_statement ==> exists|r: MergedNode| urb_recovered(*old(self), r),
    {
        let ghost mut rec = *self;
        if should_execute_self_stab_statement {
            self.self_stabilizing_recovery();
            proof {
                rec = *self;
                assert(urb_recovered(*old(self), rec));
            }
        }
        let d = self.handle_records_in_buffer(should_execute_self_stab_statement);
        let ghost h = *self;
        let mut items: Vec<(Tag, Option<Payload>, usize)> = Vec::new();
        let mut k: usize = 0;
        while k < d.len()
            invariant
                self.wf(),
                *self == h,
                k <= d@.len(),
                forall|q: int| 0 <= q < d@.len() ==> #[trigger] d@[q] < self.buffer@.len(),
                forall|q: int| 0 <= q < items@.len() ==> (#[trigger] items@[q]).2 < self.buffer@.len(),
            decreases d@.len() - k,
        {
            let idx = d[k];
            match self.buffer[idx].urb_tag {
                Some(t) => items.push((t, self.buffer[idx].msg.clone(), idx)),
                None => {},
            }
            k = k + 1;
        }
        while items.len() > 0
            invariant
                self.wf(),
                self.settings == old(self).settings,
                old(self).delivered@.is_prefix_of(self.delivered@),
                forall|q: int| 0 <= q < items@.len() ==> (#[trigger] items@[q]).2 < self.buffer@.len(),
                self.settings.variant == Variant::URB ==> self.buffer == h.buffer,
                appended_only(old(self).delivered@, self.delivered@, old(self).settings.variant == Variant::URB),
                old(self).settings.variant != Variant::URB ==> self.delivered == old(self).delivered,
                self.next_to_deliver == h.next_to_deliver,
                self.theta == h.theta,
                self.buffer@.len() >= h.buffer@.len(),
                forall|q: int| 0 <= q < h.buffer@.len() ==> (#[trigger] self.buffer@[q]).urb_tag == h.buffer@[q].urb_tag
                    && self.buffer@[q].recBy == h.buffer@[q].recBy && self.buffer@[q].delivered == h.buffer@[q].delivered,
                forall|q: int| h.buffer@.len() <= q < self.buffer@.len() ==> (#[trigger] self.buffer@[q]).urb_tag.is_none(),
            decreases items@.len(),
        {
            let (t, msg, idx) = items.remove(0);
            let ghost len0 = self.buffer@.len();
            let ghost bb = self.buffer@;
            self.victory_round(t, idx);
            let ghost dl = self.delivered@;
            self.urb_deliver(t, msg);
            proof {
                assert forall|q: int| old(self).delivered@.len() <= q < self.delivered@.len() implies ((#[trigger] self.delivered@[q]) is Urb)
                    == (old(self).settings.variant == Variant::URB) by {
                    if q < dl.len() {
                        assert(self.delivered@[q] == dl[q]);
                    }
                }
                assert(old(self).delivered@.is_prefix_of(self.delivered@)) by {
                    assert(forall|q: int| 0 <= q < dl.len() ==> self.delivered@[q] == dl[q]);
                }
            }
            assert(forall|q: int| 0 <= q < items@.len() ==> (#[trigger] items@[q]).2 < len0);
            proof {
                assert forall|q: int| 0 <= q < h.buffer@.len() implies (#[trigger] self.buffer@[q]).urb_tag == h.buffer@[q].urb_tag
                    && self.buffer@[q].recBy == h.buffer@[q].recBy && self.buffer@[q].delivered == h.buffer@[q].delivered by {
                    assert(bb[q].urb_tag == h.buffer@[q].urb_tag);
                }
                assert forall|q: int| h.buffer@.len() <= q < self.buffer@.len() implies (#[trigger] self.buffer@[q]).urb_tag.is_none() by {
                    if q < bb.len() {
                        assert(bb[q].urb_tag.is_none());
                    }
                }
            }
        }
        let ghost pre = *self;
        proof {
            assert forall|q: int| 0 <= q < pre.buffer@.len() implies !urb_deliverable(pre, #[trigger] pre.buffer@[q]) by {
                if q < h.buffer@.len() {
                    assert(!urb_deliverable(h, h.buffer@[q]));
                }
            }
        }
        self.remove_unreasonable_urb_records_from_buffer();
        proof {
            assert forall|j: int| 0 <= j < self.buffer@.len() implies !urb_deliverable(*self, #[trigger] self.buffer@[j]) by {
                let q = choose|q: int| 0 <= q < pre.buffer@.len()
                    && (#[trigger] self.buffer@[j]).urb_tag == pre.buffer@[q].urb_tag
                    && self.buffer@[j].delivered == pre.buffer@[q].delivered
                    && self.buffer@[j].recBy == pre.buffer@[q].recBy;
                assert(!urb_deliverable(pre, pre.buffer@[q]));
            }
        }
        let ghost pre2 = *self;
        self.advance_urb_rxObsS_based_on_obs_record();
        proof {
            assert forall|j: int| 0 <= j < self.buffer@.len() implies urb_deliverable(*self, #[trigger] self.buffer@[j])
                == urb_deliverable(pre2, pre2.buffer@[j]) by {}
        }
        if should_execute_self_stab_statement {
            let ghost pre3 = *self;
            self.gossip();
            proof {
                assert forall|j: int| 0 <= j < self.buffer@.len() implies urb_deliverable(*self, #[trigger] self.buffer@[j])
                    == urb_deliverable(pre3, pre3.buffer@[j]) by {}
            }
        }
    }

    /// One SCD iteration: recovery when due, recirculation of SCD records,
    /// SCD delivery, garbage collection, and gossip when due.
    pub fn scd_loop_iter(&mut self, should_execute_self_stab_statement: bool)
        requires
            old(self).wf(),
        ensures
            scd_iter_post(*old(self), *final(self), should_execute_self_stab_statement),
            old(self).delivered@.is_prefix_of(final(self).delivered@),
            final(self).wf(),
            final(self).settings == old(self).settings,
            appended_only(old(self).delivered@, final(self).delivered@, false),
            should_execute_self_stab_statement ==> exists|r: MergedNode| scd_recovered(*old(self), r),
            exists|p: MergedNode, q: MergedNode| p.settings == old(self).settings && scd_batch_done(p, q),
    {
        let ghost mut rec = *self;
        if should_execute_self_stab_statement {
            self.scd_stabilizing_recovery();
            proof {
                rec = *self;
                assert(scd_recovered(*old(self), rec));
            }
        }
        self.handle_scd_records(should_execute_self_stab_statement);
        let ghost p = *self;
        let _ = self.try_deliver();
        let ghost q = *self;
        proof {
            assert(scd_batch_done(p, q));
        }
        self.advance_scd_rxObsS_based_on_obs_record();
        self.remove_unreasonable_scd_records_from_buffer();
        if should_execute_self_stab_statement {
            self.scd_gossip();
        }
    }

    /// Heartbeats of both failure detectors to every node, then a refresh
    /// of the trusted set.
    #[verifier::rlimit(60)]
    pub fn fd_iter(&mut self)
        requires
            old(self).wf(),
        ensures
            fd_post(*old(self), *final(self)),
            old(self).delivered@.is_prefix_of(final(self).delivered@),
            final(self).wf(),
            final(self).settings == old(self).settings,
            final(self).buffer == old(self).buffer,
            final(self).next_to_deliver == old(self).next_to_deliver,
            old(self).outbox@.is_prefix_of(final(self).outbox@),
            bits_of(final(self).theta.current_trusted) == crate::fd::shrink_trusted(
                bits_of(old(self).theta.current_trusted), old(self).theta.vector@, old(self).theta.threshold),
            final(self).theta.vector == old(self).theta.vector,
            final(self).hbfd.hb@.len() == old(self).hbfd.hb@.len(),
            forall|k: int| 0 <= k < old(self).n() && k != old(self).node_id - 1 ==> #[trigger] final(self).hbfd.hb@[k]
                == old(self).hbfd.hb@[k],
            old(self).hbfd.running ==> final(self).hbfd.hb@[old(self).node_id - 1] == sat_inc(old(self).hbfd.hb@[old(self).node_id - 1]),
            forall|q: int| old(self).outbox@.len() <= q < final(self).outbox@.len() ==> (#[trigger] final(self).outbox@[q]).1
                == WireMessage::Theta(ThetafdMessage { sender: old(self).node_id }) || final(self).outbox@[q].1
                == WireMessage::Hbfd(HbfdMessage { sender: old(self).node_id }),
            forall|k: int| #[trigger] node_in(k, old(self).n() as int) && old(self).theta.running ==> exists|q: int| old(self).outbox@.len() <= q
                < final(self).outbox@.len() && #[trigger] final(self).outbox@[q] == (k as NodeId, WireMessage::Theta(
                ThetafdMessage { sender: old(self).node_id })),
            forall|k: int| #[trigger] node_in(k, old(self).n() as int) && k != old(self).node_id && old(self).hbfd.running ==> exists|q: int|
                old(self).outbox@.len() <= q < final(self).outbox@.len() && #[trigger] final(self).outbox@[q] == (
                k as NodeId, WireMessage::Hbfd(HbfdMessage { sender: old(self).node_id })),
            final(self).delivered == old(self).delivered,
    {
        let n = self.settings.number_of_nodes;
        let mut k: usize = 1;
        while k <= n
            invariant
                self.wf(),
                n == self.n(),
                1 <= k <= n + 1,
                self.settings == old(self).settings,
                self.node_id == old(self).node_id,
                self.buffer == old(self).buffer,
                self.next_to_deliver == old(self).next_to_deliver,
                self.delivered == old(self).delivered,
                self.theta == old(self).theta,
                self.hbfd.running == old(self).hbfd.running,
                self.hbfd.hb@.len() == old(self).hbfd.hb@.len(),
                forall|k2: int| 0 <= k2 < n && k2 != old(self).node_id - 1 ==> #[trigger] self.hbfd.hb@[k2]
                    == old(self).hbfd.hb@[k2],
                self.hbfd.hb@[old(self).node_id - 1] == (if old(self).hbfd.running && k > old(self).node_id {
                    sat_inc(old(self).hbfd.hb@[old(self).node_id - 1])
                } else {
                    old(self).hbfd.hb@[old(self).node_id - 1]
                }),
                old(self).outbox@.is_prefix_of(self.outbox@),
                forall|q: int| old(self).outbox@.len() <= q < self.outbox@.len() ==> (#[trigger] self.outbox@[q]).1
                    == WireMessage::Theta(ThetafdMessage { sender: old(self).node_id }) || self.outbox@[q].1
                    == WireMessage::Hbfd(HbfdMessage { sender: old(self).node_id }),
                forall|k2: int| #[trigger] node_in(k2, k - 1) && old(self).theta.running ==> exists|q: int| old(self).outbox@.len() <= q
                    < self.outbox@.len() && #[trigger] self.outbox@[q] == (k2 as NodeId, WireMessage::Theta(
                    ThetafdMessage { sender: old(self).node_id })),
                forall|k2: int| #[trigger] node_in(k2, k - 1) && k2 != old(self).node_id && old(self).hbfd.running ==> exists|q: int|
                    old(self).outbox@.len() <= q < self.outbox@.len() && #[trigger] self.outbox@[q] == (
                    k2 as NodeId, WireMessage::Hbfd(HbfdMessage { sender: old(self).node_id })),
            decreases n + 1 - k,
        {
            let ghost ob = self.outbox@;
            if self.theta.running {
                self.outbox.push((k, WireMessage::Theta(ThetafdMessage { sender: self.node_id })));
            }
            if self.hbfd.running {
                match self.hbfd.send_heartbeat(k) {
                    Some(m) => self.outbox.push((k, WireMessage::Hbfd(m))),
                    None => {},
                }
            }
            proof {
                assert(forall|q: int| 0 <= q < ob.len() ==> self.outbox@[q] == ob[q]);
                assert forall|k2: int| #[trigger] node_in(k2, k as int) && old(self).theta.running implies exists|q: int| old(self).outbox@.len() <= q
                    < self.outbox@.len() && #[trigger] self.outbox@[q] == (k2 as NodeId, WireMessage::Theta(
                    ThetafdMessage { sender: old(self).node_id })) by {
                    if k2 < k {
                        assert(node_in(k2, k - 1));
                        let q = choose|q: int| old(self).outbox@.len() <= q < ob.len() && #[trigger] ob[q] == (k2 as NodeId,
                            WireMessage::Theta(ThetafdMessage { sender: old(self).node_id }));
                        assert(self.outbox@[q] == ob[q]);
                    } else {
                        assert(self.outbox@[ob.len() as int] == (k2 as NodeId, WireMessage::Theta(ThetafdMessage { sender: old(self).node_id })));
                    }
                }
                assert forall|k2: int| #[trigger] node_in(k2, k as int) && k2 != old(self).node_id && old(self).hbfd.running implies exists|q: int|
                    old(self).outbox@.len() <= q < self.outbox@.len() && #[trigger] self.outbox@[q] == (
                    k2 as NodeId, WireMessage::Hbfd(HbfdMessage { sender: old(self).node_id })) by {
                    if k2 < k {
                        assert(node_in(k2, k - 1));
                        let q = choose|q: int| old(self).outbox@.len() <= q < ob.len() && #[trigger] ob[q] == (k2 as NodeId,
                            WireMessage::Hbfd(HbfdMessage { sender: old(self).node_id }));
                        assert(self.outbox@[q] == ob[q]);
                    } else {
                        assert(self.outbox@[self.outbox@.len() - 1] == (k2 as NodeId, WireMessage::Hbfd(HbfdMessage { sender: old(self).node_id })));
                    }
                }
            }
            k = k + 1;
        }
        proof {
            assert forall|k2: int| #[trigger] node_in(k2, old(self).n() as int) && old(self).theta.running implies exists|q: int|
                old(self).outbox@.len() <= q < self.outbox@.len() && #[trigger] self.outbox@[q] == (k2 as NodeId,
                WireMessage::Theta(ThetafdMessage { sender: old(self).node_id })) by {
                assert(node_in(k2, k - 1));
            }
            assert forall|k2: int| #[trigger] node_in(k2, old(self).n() as int) && k2 != old(self).node_id && old(self).hbfd.running
                implies exists|q: int| old(self).outbox@.len() <= q < self.outbox@.len() && #[trigger] self.outbox@[q] == (
                k2 as NodeId, WireMessage::Hbfd(HbfdMessage { sender: old(self).node_id })) by {
                assert(node_in(k2, k - 1));
            }
        }
        let _ = self.theta.trusted();
    }

    /// One tick of the driver loop on the messages received since the last
    /// one: heartbeats, failure detectors, progress summaries, then `MSG`,
    /// `MSGAck` and `FORWARD` messages, then one URB iteration and, when the
    /// SCD layer runs, one SCD iteration. Recovery and gossip run when
    /// `should_execute_self_stab_statement` holds.
    pub fn bare_bone_loop_iter(&mut self, should_execute_self_stab_statement: bool, inbox: Vec<WireMessage>)
        requires
            old(self).wf(),
        ensures
            tick_post(*old(self), *final(self), should_execute_self_stab_statement, inbox@),
            old(self).delivered@.is_prefix_of(final(self).delivered@),
            final(self).wf(),
            final(self).settings == old(self).settings,
            old(self).settings.variant == Variant::URB ==> forall|j: int| 0 <= j < final(self).buffer@.len()
                ==> !urb_deliverable(*final(self), #[trigger] final(self).buffer@[j]),
            appended_only(old(self).delivered@, final(self).delivered@, old(self).settings.variant == Variant::URB),
    {
        let n = self.settings.number_of_nodes;
        self.gossip_sent = filled_bool(n, false);
        let ghost s0 = *self;
        let ghost orig = inbox@;
        let mut inbox = inbox;
        let mut gossips: Vec<WireMessage> = Vec::new();
        let mut msgs: Vec<MSG> = Vec::new();
        let mut acks: Vec<MSGAck> = Vec::new();
        let mut forwards: Vec<FORWARD> = Vec::new();
        let mut c: usize = 0;
        let total = inbox.len();
        while inbox.len() > 0
            invariant
                self.wf(),
                self.settings == old(self).settings,
                self.delivered == old(self).delivered,
                total == orig.len(),
                c <= orig.len(),
                inbox@ == orig.skip(c as int),
                intake_all(s0, *self, orig.take(c as int)),
                gossips@ == gossips_of(orig.take(c as int)),
                msgs@ == msgs_of(orig.take(c as int)),
                acks@ == acks_of(orig.take(c as int)),
                forwards@ == forwards_of(orig.take(c as int)),
            decreases inbox@.len(),
        {
            let ghost prev = *self;
            let ghost w = orig[c as int];
            assert(inbox@[0] == w);
            assert(orig.take(c + 1).drop_last() =~= orig.take(c as int));
            assert(orig.take(c + 1).last() == w);
            match inbox.remove(0) {
                WireMessage::Hbfd(h) => self.hbfd.on_heartbeat(h),
                WireMessage::Theta(t) => self.theta.on_heartbeat(t),
                WireMessage::Gossip(g) => gossips.push(WireMessage::Gossip(g)),
                WireMessage::ScdGossip(g) => gossips.push(WireMessage::ScdGossip(g)),
                WireMessage::Msg(m) => msgs.push(m),
                WireMessage::Ack(a) => acks.push(a),
                WireMessage::Forward(f) => forwards.push(f),
            }
            proof {
                assert(intake_step(prev, *self, w));
                assert(intake_all(s0, prev, orig.take(c + 1).drop_last()));
                assert(intake_all(s0, *self, orig.take(c + 1)));
                assert(inbox@ =~= orig.skip(c + 1));
            }
            c = c + 1;
        }
        proof {
            assert(orig.take(c as int) =~= orig);
        }
        let ghost s1 = *self;
        self.fd_iter();
        let ghost s2 = *self;
        let ghost gs = gossips@;
        let cnt = gossips.len();
        let mut k: usize = 0;
        while gossips.len() > 0
            invariant
                self.wf(),
                self.settings == old(self).settings,
                self.delivered == old(self).delivered,
                k <= gs.len(),
                cnt == gs.len(),
                gossips@ == gs.skip(k as int),
                gossips_applied(s2, *self, gs.take(k as int)),
            decreases gossips@.len(),
        {
            let ghost prev = *self;
            assert(gs.take(k + 1).drop_last() =~= gs.take(k as int));
            assert(gossips@[0] == gs[k as int]);
            let item = gossips.remove(0);
            assert(item == gs[k as int]);
            match item {
                WireMessage::Gossip(g) => {
                    self.GOSSIP_received(g);
                    assert(gossip_post(prev, *self, g));
                },
                WireMessage::ScdGossip(g) => {
                    self.SCDGOSSIP_received(g);
                    assert(scd_gossip_post(prev, *self, g));
                },
                _ => {},
            }
            proof {
                assert(gossips_applied(s2, prev, gs.take(k + 1).drop_last()));
                assert(gs.take(k + 1).last() == gs[k as int]);
                assert(gossip_step(prev, *self, gs.take(k + 1).last()));
                lemma_gossips_step(s2, prev, *self, gs.take(k + 1));
                assert(gossips@ =~= gs.skip(k + 1));
                assert(gs.take(k + 1).last() == gs[k as int]);
            }
            k = k + 1;
        }
        proof {
            assert(gs.take(k as int) =~= gs);
        }
        let ghost s3 = *self;
        let ghost ms = msgs@;
        let cnt = msgs.len();
        let mut k: usize = 0;
        while msgs.len() > 0
            invariant
                self.wf(),
                self.settings == old(self).settings,
                self.delivered == old(self).delivered,
                k <= ms.len(),
                cnt == ms.len(),
                msgs@ == ms.skip(k as int),
                msgs_applied(s3, *self, ms.take(k as int)),
            decreases msgs@.len(),
        {
            let ghost prev = *self;
            assert(ms.take(k + 1).drop_last() =~= ms.take(k as int));
            assert(msgs@[0] == ms[k as int]);
            let m = msgs.remove(0);
            self.MSG_received(m);
            proof {
                assert(msgs_applied(s3, prev, ms.take(k + 1).drop_last()));
                assert(msgs@ =~= ms.skip(k + 1));
                assert(ms.take(k + 1).last() == ms[k as int]);
            }
            k = k + 1;
        }
        proof {
            assert(ms.take(k as int) =~= ms);
        }
        let ghost s4 = *self;
        let ghost as_ = acks@;
        let cnt = acks.len();
        let mut k: usize = 0;
        while acks.len() > 0
            invariant
                self.wf(),
                self.settings == old(self).settings,
                self.delivered == old(self).delivered,
                k <= as_.len(),
                cnt == as_.len(),
                acks@ == as_.skip(k as int),
                acks_applied(s4, *self, as_.take(k as int)),
            decreases acks@.len(),
        {
            let ghost prev = *self;
            assert(as_.take(k + 1).drop_last() =~= as_.take(k as int));
            assert(acks@[0] == as_[k as int]);
            let a = acks.remove(0);
            self.MSGAck_received(a);
            proof {
                assert(acks_applied(s4, prev, as_.take(k + 1).drop_last()));
                assert(acks@ =~= as_.skip(k + 1));
                assert(as_.take(k + 1).last() == as_[k as int]);
            }
            k = k + 1;
        }
        proof {
            assert(as_.take(k as int) =~= as_);
        }
        let ghost s5 = *self;
        let ghost fs = forwards@;
        let cnt = forwards.len();
        let mut k: usize = 0;
        while forwards.len() > 0
            invariant
                self.wf(),
                self.settings == old(self).settings,
                self.delivered == old(self).delivered,
                k <= fs.len(),
                cnt == fs.len(),
                forwards@ == fs.skip(k as int),
                forwards_applied(s5, *self, fs.take(k as int)),
            decreases forwards@.len(),
        {
            let ghost prev = *self;
            assert(fs.take(k + 1).drop_last() =~= fs.take(k as int));
            assert(forwards@[0] == fs[k as int]);
            let f = forwards.remove(0);
            self.SCD_forward_recieved(f);
            proof {
                assert(forwards_applied(s5, prev, fs.take(k + 1).drop_last()));
                assert(forwards@ =~= fs.skip(k + 1));
                assert(fs.take(k + 1).last() == fs[k as int]);
            }
            k = k + 1;
        }
        proof {
            assert(fs.take(k as int) =~= fs);
        }
        let ghost s6 = *self;
        self.urb_loop_iter(should_execute_self_stab_statement);
        let ghost s7 = *self;
        match self.settings.variant {
            Variant::URB => {},
            _ => self.scd_loop_iter(should_execute_self_stab_statement),
        }
        proof {
            assert(same_but_gossip_sent(*old(self), s0));
            assert(intake_all(s0, s1, orig));
            assert(fd_post(s1, s2));
            assert(gossips_applied(s2, s3, gossips_of(orig)));
            assert(msgs_applied(s3, s4, msgs_of(orig)));
            assert(acks_applied(s4, s5, acks_of(orig)));
            assert(forwards_applied(s5, s6, forwards_of(orig)));
            assert(urb_iter_post(s6, s7, should_execute_self_stab_statement));
        }
    }

    /// A heartbeat for the retransmission failure detector.
    pub fn on_hb_hb(&mut self, msg: HbfdMessage)
        requires
            old(self).wf(),
        ensures
            final(self).wf(),
            final(self).buffer == old(self).buffer,
            final(self).hbfd.hb@.len() == old(self).hbfd.hb@.len(),
            1 <= msg.sender <= old(self).n() ==> final(self).hbfd.hb@[msg.sender - 1] >= old(self).hbfd.hb@[msg.sender - 1],
    {
        self.hbfd.on_heartbeat(msg);
    }

    /// A heartbeat for the trust failure detector.
    pub fn on_theta_hb(&mut self, msg: ThetafdMessage)
        requires
            old(self).wf(),
        ensures
            final(self).wf(),
            final(self).buffer == old(self).buffer,
            1 <= msg.sender <= old(self).n() ==> final(self).theta.vector@ == crate::fd::theta_after(
                old(self).theta.vector@, msg.sender as int, old(self).node_id as int),
    {
        self.theta.on_heartbeat(msg);
    }

    /// Whether the node is to stop: a recovery found corruption that no
    /// injected fault explains, and the configuration asks to abort on it.
    pub fn should_abort(&self) -> (r: bool)
        ensures
            r == (self.settings.abort_on_corruption && self.illegally_triggered_ss),
    {
        self.settings.abort_on_corruption && self.illegally_triggered_ss
    }

    /// Heartbeat counters of the retransmission failure detector.
    pub fn get_hb(&self) -> (r: Vec<Int>)
        ensures
            r@ == self.hbfd.hb@,
    {
        self.hbfd.get_hb()
    }

    /// Refreshes and returns the trusted set.
    pub fn trusted(&mut self) -> (r: BitVec)
        requires
            old(self).wf(),
        ensures
            final(self).wf(),
            bits_of(r) == bits_of(final(self).theta.current_trusted),
            bits_of(final(self).theta.current_trusted) == crate::fd::shrink_trusted(
                bits_of(old(self).theta.current_trusted), old(self).theta.vector@, old(self).theta.threshold),
            final(self).buffer == old(self).buffer,
            final(self).settings == old(self).settings,
    {
        self.theta.trusted()
    }

    /// Whether `msgs` more client broadcasts fit in the window of the layer
    /// the node runs.
    pub fn accepts_operations(&self, msgs: Int) -> (r: bool)
        requires
            self.wf(),
        ensures
            self.settings.variant == Variant::URB ==> r == self.urb_space_for(msgs),
            self.settings.variant != Variant::URB ==> r == self.scd_space_for(msgs),
    {
        match self.settings.variant {
            Variant::URB => self.urb_available_space_for(msgs),
            _ => self.scd_available_space_for(msgs),
        }
    }

    /// A client broadcast through the layer the node runs.
    pub fn client_broadcast(&mut self, msg: String) -> (r: StatusCode)
        requires
            old(self).wf(),
        ensures
            final(self).wf(),
            r == StatusCode::ErrNoSpace || r == StatusCode::OK,
            old(self).settings.variant == Variant::URB ==> (r == StatusCode::ErrNoSpace <==> !old(self).urb_space()),
            old(self).settings.variant != Variant::URB ==> (r == StatusCode::ErrNoSpace <==> !old(self).scd_space()),
            r == StatusCode::ErrNoSpace ==> *final(self) == *old(self),
            r == StatusCode::OK && old(self).settings.variant == Variant::URB ==> final(self).seq == old(self).seq + 1
                && final(self).sn == old(self).sn,
            ({
                let t = Tag { id: old(self).node_id, seq: (old(self).seq + 1) as Int };
                r == StatusCode::OK && old(self).settings.variant == Variant::URB
                    && t.seq > old(self).urb_rxObsS@[old(self).node_id - 1] && find_tag(old(self).buffer@, t).is_none()
                    ==> final(self).buffer@.drop_last() == old(self).buffer@
                    && is_new_urb_record(final(self).buffer@.last(), t, Some(Payload::Text(msg)), old(self).node_id,
                        old(self).n(), None)
            }),
            ({
                let t = Tag { id: old(self).node_id, seq: old(self).sn };
                r == StatusCode::OK && old(self).settings.variant != Variant::URB && find_scd(old(self).buffer@, t).is_none()
                    && t.seq > old(self).scd_rxObsS@[t.id - 1] && old(self).sn < Int::MAX
                    ==> final(self).sn == old(self).sn + 1 && final(self).buffer@.drop_last() == old(self).buffer@
                    && is_new_scd_record(final(self).buffer@.last(), msg, t, t, old(self).node_id, old(self).sn, old(self).n())
            }),
    {
        match self.settings.variant {
            Variant::URB => self.urb_broadcast(msg),
            _ => self.scd_broadcast(msg).0,
        }
    }
}

} // verus!
