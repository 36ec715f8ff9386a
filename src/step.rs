use vstd::prelude::*;
use crate::bits::{bits_of, byte_bit, subset_bits};
use crate::driver::{appended_only, node_in, sat_inc, scd_batch_done, scd_recovered, urb_recovered};
use crate::fd::{shrink_trusted, theta_after};
use crate::messages::{FORWARD, GOSSIP, HbfdMessage, MSG, MSGAck, SCDGOSSIP, ThetafdMessage, WireMessage};
use crate::node::MergedNode;
use crate::receive::{ack_bit, bytes_fit, unpacked};
use crate::scd::{max_int, rx_space_after, tx_space_after};
use crate::types::{Int, NodeId, Tag, Variant};
use crate::scd::forward_post;
use crate::urb::{find_tag, is_new_urb_record, keeps_delivery, urb_deliverable};

verus! {

/// `b` is `a` after `MSG_received(msg)`.
pub open spec fn msg_post(a: MergedNode, b: MergedNode, msg: MSG) -> bool {
    &&& (b.wf())
    &&& (keeps_delivery(a.buffer@, b.buffer@))
    &&& (b.next_to_deliver == a.next_to_deliver)
    &&& (b.delivered == a.delivered)
    &&& (b.settings == a.settings)
    &&& (({ 
        let ok = 1 <= msg.sender <= a.n() && 1 <= msg.tag.id <= a.n() 
        && bytes_fit(msg.recv_by@, a.n()) && bytes_fit(msg.recv_by_trusted@, a.n()); 
        &&& !ok ==> b == a 
        &&& ok ==> forall|j: int| 0 <= j < a.buffer@.len() ==> subset_bits(bits_of(a.buffer@[j].recBy), 
        bits_of(#[trigger] b.buffer@[j].recBy)) 
        &&& ok && find_tag(a.buffer@, msg.tag).is_some() ==> b.buffer@.len() == a.buffer@.len() 
        &&& ok && find_tag(a.buffer@, msg.tag).is_none() && msg.msg.is_some() 
        && msg.tag.seq > b.urb_rxObsS@[msg.tag.id - 1] ==> b.buffer@.drop_last() == a.buffer@ 
        && is_new_urb_record(b.buffer@.last(), msg.tag, msg.msg, a.node_id, a.n(), 
        Some(unpacked(msg.recv_by@, a.n()))) 
        &&& ok && find_tag(a.buffer@, msg.tag).is_none() && (msg.msg.is_none() 
        || msg.tag.seq <= b.urb_rxObsS@[msg.tag.id - 1]) ==> b.buffer == a.buffer 
        &&& ok ==> b.outbox@.len() == a.outbox@.len() + 1 
        && b.outbox@.drop_last() == a.outbox@ 
        && b.outbox@.last().0 == msg.sender 
        && (b.outbox@.last().1 matches WireMessage::Ack(ack) 
        && ack.sender == a.node_id && ack.tag == msg.tag 
        && forall|i: int| 0 <= i < a.n() ==> #[trigger] byte_bit(ack.recv_by@, i) == ack_bit( 
        b.buffer@, msg.tag, b.urb_rxObsS@, i)) 
        }))
}

/// `b` is `a` after `MSGAck_received(msg)`.
pub open spec fn ack_post(a: MergedNode, b: MergedNode, msg: MSGAck) -> bool {
    &&& (b.wf())
    &&& (keeps_delivery(a.buffer@, b.buffer@))
    &&& (b.buffer@.len() == a.buffer@.len())
    &&& (b.next_to_deliver == a.next_to_deliver)
    &&& (b.delivered == a.delivered)
    &&& (b.outbox == a.outbox)
    &&& (b.settings == a.settings)
}

/// `b` is `a` after `SCD_forward_recieved(msg)`.
pub open spec fn forward_in_post(a: MergedNode, b: MergedNode, msg: FORWARD) -> bool {
    &&& (b.theta == a.theta)
    &&& (b.wf())
    &&& (b.next_to_deliver == a.next_to_deliver)
    &&& (b.delivered == a.delivered)
    &&& (b.outbox == a.outbox)
    &&& (b.settings == a.settings)
    &&& (forall|j: int| 0 <= j < a.buffer@.len() ==> (#[trigger] b.buffer@[j]).delivered 
        == a.buffer@[j].delivered)
    &&& (b.buffer@.len() >= a.buffer@.len())
    &&& (1 <= msg.msg_tag.id <= a.n() && 1 <= msg.forward_tag.id <= a.n() && msg.cl@.len() == a.n() ==> exists|r: Option<Tag>|
        forward_post(a, b, msg.msg, msg.msg_tag, msg.forward_tag, Some(msg.cl), r))
    &&& (!(1 <= msg.msg_tag.id <= a.n() && 1 <= msg.forward_tag.id <= a.n() && msg.cl@.len() == a.n()) ==> b == a)
}

/// `b` is `a` after `GOSSIP_received(msg)`.
pub open spec fn gossip_post(a: MergedNode, b: MergedNode, msg: GOSSIP) -> bool {
    &&& (b.wf())
    &&& (b.buffer == a.buffer)
    &&& (b.next_to_deliver == a.next_to_deliver)
    &&& (b.theta == a.theta)
    &&& (b.settings == a.settings)
    &&& (b.delivered == a.delivered)
    &&& (b.gossip_sent == a.gossip_sent)
    &&& (b.hbfd == a.hbfd)
    &&& (b.illegally_triggered_ss == a.illegally_triggered_ss)
    &&& (b.outbox == a.outbox)
    &&& (1 <= msg.sender <= a.n() ==> { 
        &&& b.seq == if a.seq >= msg.urb_maxSeq { a.seq } else { msg.urb_maxSeq } 
        &&& b.urb_rxObsS@ == a.urb_rxObsS@.update(msg.sender - 1, 
        if a.urb_rxObsS@[msg.sender - 1] >= msg.urb_txObsS { a.urb_rxObsS@[msg.sender - 1] } else { msg.urb_txObsS }) 
        &&& b.urb_txObsS@ == a.urb_txObsS@.update(msg.sender - 1, 
        if a.urb_txObsS@[msg.sender - 1] >= msg.urb_rxObsS { a.urb_txObsS@[msg.sender - 1] } else { msg.urb_rxObsS }) 
        })
    &&& (!(1 <= msg.sender <= a.n()) ==> b == a)
}

/// `b` is `a` after `SCDGOSSIP_received(gossip)`.
pub open spec fn scd_gossip_post(a: MergedNode, b: MergedNode, gossip: SCDGOSSIP) -> bool {
    &&& (b.wf())
    &&& (b.buffer == a.buffer)
    &&& (b.seq == a.seq)
    &&& (b.urb_rxObsS == a.urb_rxObsS)
    &&& (b.urb_txObsS == a.urb_txObsS)
    &&& (b.next_to_deliver == a.next_to_deliver)
    &&& (b.theta == a.theta)
    &&& (b.settings == a.settings)
    &&& (b.delivered == a.delivered)
    &&& (b.gossip_sent == a.gossip_sent)
    &&& (b.hbfd == a.hbfd)
    &&& (b.illegally_triggered_ss == a.illegally_triggered_ss)
    &&& (b.outbox == a.outbox)
    &&& (1 <= gossip.sender <= a.n() ==> { 
        let k = gossip.sender - 1; 
        &&& b.sn == max_int(a.sn, gossip.scd_maxSeq) 
        &&& b.scd_rxObsS@ == a.scd_rxObsS@.update(k, max_int(a.scd_rxObsS@[k], gossip.scd_txObsS)) 
        &&& b.scd_txObsS@ == a.scd_txObsS@.update(k, max_int(a.scd_txObsS@[k], gossip.scd_rxObsS)) 
        &&& b.scd_txSpace@ == a.scd_txSpace@.update(k, tx_space_after(a.scd_txSpace@[k], gossip)) 
        &&& b.scd_rxSpace@ == a.scd_rxSpace@.update(k, rx_space_after(a.scd_rxSpace@[k], gossip)) 
        })
    &&& (!(1 <= gossip.sender <= a.n()) ==> b == a)
}

/// `b` is `a` after `fd_iter()`.
pub open spec fn fd_post(a: MergedNode, b: MergedNode) -> bool {
    &&& (a.delivered@.is_prefix_of(b.delivered@))
    &&& (b.wf())
    &&& (b.settings == a.settings)
    &&& (b.buffer == a.buffer)
    &&& (b.next_to_deliver == a.next_to_deliver)
    &&& (a.outbox@.is_prefix_of(b.outbox@))
    &&& (bits_of(b.theta.current_trusted) == crate::fd::shrink_trusted( 
        bits_of(a.theta.current_trusted), a.theta.vector@, a.theta.threshold))
    &&& (b.theta.vector == a.theta.vector)
    &&& (b.hbfd.hb@.len() == a.hbfd.hb@.len())
    &&& (forall|k: int| 0 <= k < a.n() && k != a.node_id - 1 ==> #[trigger] b.hbfd.hb@[k] 
        == a.hbfd.hb@[k])
    &&& (a.hbfd.running ==> b.hbfd.hb@[a.node_id - 1] == sat_inc(a.hbfd.hb@[a.node_id - 1]))
    &&& (forall|q: int| a.outbox@.len() <= q < b.outbox@.len() ==> (#[trigger] b.outbox@[q]).1 
        == WireMessage::Theta(ThetafdMessage { sender: a.node_id }) || b.outbox@[q].1 
        == WireMessage::Hbfd(HbfdMessage { sender: a.node_id }))
    &&& (forall|k: int| #[trigger] node_in(k, a.n() as int) && a.theta.running ==> exists|q: int| a.outbox@.len() <= q 
        < b.outbox@.len() && #[trigger] b.outbox@[q] == (k as NodeId, WireMessage::Theta( 
        ThetafdMessage { sender: a.node_id })))
    &&& (forall|k: int| #[trigger] node_in(k, a.n() as int) && k != a.node_id && a.hbfd.running ==> exists|q: int| 
        a.outbox@.len() <= q < b.outbox@.len() && #[trigger] b.outbox@[q] == ( 
        k as NodeId, WireMessage::Hbfd(HbfdMessage { sender: a.node_id })))
    &&& (b.delivered == a.delivered)
}

/// `b` is `a` after `urb_loop_iter(should_execute_self_stab_statement)`.
pub open spec fn urb_iter_post(a: MergedNode, b: MergedNode, should_execute_self_stab_statement: bool) -> bool {
    &&& (a.delivered@.is_prefix_of(b.delivered@))
    &&& (b.wf())
    &&& (b.settings == a.settings)
    &&& (forall|j: int| 0 <= j < b.buffer@.len() ==> !urb_deliverable(b, #[trigger] b.buffer@[j]))
    &&& (appended_only(a.delivered@, b.delivered@, a.settings.variant == Variant::URB))
    &&& (a.settings.variant != Variant::URB ==> b.delivered == a.delivered)
    &&& (should_execute_self_stab_statement ==> exists|r: MergedNode| urb_recovered(a, r))
}

/// `b` is `a` after `scd_loop_iter(should_execute_self_stab_statement)`.
pub open spec fn scd_iter_post(a: MergedNode, b: MergedNode, should_execute_self_stab_statement: bool) -> bool {
    &&& (a.delivered@.is_prefix_of(b.delivered@))
    &&& (b.wf())
    &&& (b.settings == a.settings)
    &&& (appended_only(a.delivered@, b.delivered@, false))
    &&& (should_execute_self_stab_statement ==> exists|r: MergedNode| scd_recovered(a, r))
    &&& (exists|p: MergedNode, q: MergedNode| p.settings == a.settings && scd_batch_done(p, q))
}

/// All fields but the failure detectors' counters are as before.
pub open spec fn same_but_counters(a: MergedNode, b: MergedNode) -> bool {
    &&& a.settings == b.settings
    &&& a.node_id == b.node_id
    &&& a.seq == b.seq
    &&& a.buffer == b.buffer
    &&& a.urb_rxObsS == b.urb_rxObsS
    &&& a.urb_txObsS == b.urb_txObsS
    &&& a.next_to_deliver == b.next_to_deliver
    &&& a.sn == b.sn
    &&& a.scd_rxObsS == b.scd_rxObsS
    &&& a.scd_txObsS == b.scd_txObsS
    &&& a.scd_rxSpace == b.scd_rxSpace
    &&& a.scd_txSpace == b.scd_txSpace
    &&& a.gossip_sent == b.gossip_sent
    &&& a.illegally_triggered_ss == b.illegally_triggered_ss
    &&& a.outbox == b.outbox
    &&& a.delivered == b.delivered
    &&& a.counter == b.counter
    &&& a.theta.self_id == b.theta.self_id
    &&& a.theta.current_trusted == b.theta.current_trusted
    &&& a.theta.threshold == b.theta.threshold
    &&& a.theta.running == b.theta.running
    &&& a.hbfd.self_id == b.hbfd.self_id
    &&& a.hbfd.running == b.hbfd.running
}

/// `b` is `a` after taking message `w` off the inbox: a heartbeat counts at
/// once; every other message waits for its turn.
pub open spec fn intake_step(a: MergedNode, b: MergedNode, w: WireMessage) -> bool {
    &&& b.wf()
    &&& same_but_counters(a, b)
    &&& match w {
        WireMessage::Hbfd(h) => b.theta.vector == a.theta.vector && (if 1 <= h.sender <= a.n() {
            b.hbfd.hb@ == a.hbfd.hb@.update(h.sender - 1, sat_inc(a.hbfd.hb@[h.sender - 1]))
        } else {
            b.hbfd.hb@ == a.hbfd.hb@
        }),
        WireMessage::Theta(t) => b.hbfd.hb == a.hbfd.hb && (if 1 <= t.sender <= a.n() {
            b.theta.vector@ == theta_after(a.theta.vector@, t.sender as int, a.node_id as int)
        } else {
            b.theta.vector == a.theta.vector
        }),
        _ => b == a,
    }
}

/// `b` is `a` after the intake of every message of `ws`, in order.
pub open spec fn intake_all(a: MergedNode, b: MergedNode, ws: Seq<WireMessage>) -> bool
    decreases ws.len(),
{
    if ws.len() == 0 {
        b == a
    } else {
        exists|m: MergedNode| intake_all(a, m, ws.drop_last()) && intake_step(m, b, ws.last())
    }
}

/// The progress summaries of `ws`, in order.
pub open spec fn gossips_of(ws: Seq<WireMessage>) -> Seq<WireMessage>
    decreases ws.len(),
{
    if ws.len() == 0 {
        Seq::empty()
    } else {
        let f = gossips_of(ws.drop_last());
        match ws.last() {
            WireMessage::Gossip(_) | WireMessage::ScdGossip(_) => f.push(ws.last()),
            _ => f,
        }
    }
}

/// The `MSG`s of `ws`, in order.
pub open spec fn msgs_of(ws: Seq<WireMessage>) -> Seq<MSG>
    decreases ws.len(),
{
    if ws.len() == 0 {
        Seq::empty()
    } else {
        let f = msgs_of(ws.drop_last());
        match ws.last() {
            WireMessage::Msg(m) => f.push(m),
            _ => f,
        }
    }
}

/// The `MSGAck`s of `ws`, in order.
pub open spec fn acks_of(ws: Seq<WireMessage>) -> Seq<MSGAck>
    decreases ws.len(),
{
    if ws.len() == 0 {
        Seq::empty()
    } else {
        let f = acks_of(ws.drop_last());
        match ws.last() {
            WireMessage::Ack(m) => f.push(m),
            _ => f,
        }
    }
}

/// The `FORWARD`s of `ws`, in order.
pub open spec fn forwards_of(ws: Seq<WireMessage>) -> Seq<FORWARD>
    decreases ws.len(),
{
    if ws.len() == 0 {
        Seq::empty()
    } else {
        let f = forwards_of(ws.drop_last());
        match ws.last() {
            WireMessage::Forward(m) => f.push(m),
            _ => f,
        }
    }
}

/// `b` is `a` after each summary of `gs` was applied, in order.
pub open spec fn gossips_applied(a: MergedNode, b: MergedNode, gs: Seq<WireMessage>) -> bool
    decreases gs.len(),
{
    if gs.len() == 0 {
        b == a
    } else {
        exists|m: MergedNode| gossips_applied(a, m, gs.drop_last()) && gossip_step(m, b, gs.last())
    }
}

/// `b` is `a` after applying summary `w`.
pub open spec fn gossip_step(a: MergedNode, b: MergedNode, w: WireMessage) -> bool {
    match w {
        WireMessage::Gossip(g) => gossip_post(a, b, g),
        WireMessage::ScdGossip(g) => scd_gossip_post(a, b, g),
        _ => b == a,
    }
}

/// One more applied summary extends `gossips_applied`.
pub proof fn lemma_gossips_step(a: MergedNode, m: MergedNode, b: MergedNode, gs: Seq<WireMessage>)
    requires
        gs.len() > 0,
        gossips_applied(a, m, gs.drop_last()),
        gossip_step(m, b, gs.last()),
    ensures
        gossips_applied(a, b, gs),
{
    assert(gossips_applied(a, m, gs.drop_last()));
}

/// `b` is `a` after `MSG_received` of each message of `ms`, in order.
pub open spec fn msgs_applied(a: MergedNode, b: MergedNode, ms: Seq<MSG>) -> bool
    decreases ms.len(),
{
    if ms.len() == 0 {
        b == a
    } else {
        exists|m: MergedNode| msgs_applied(a, m, ms.drop_last()) && msg_post(m, b, ms.last())
    }
}

/// `b` is `a` after `MSGAck_received` of each message of `ms`, in order.
pub open spec fn acks_applied(a: MergedNode, b: MergedNode, ms: Seq<MSGAck>) -> bool
    decreases ms.len(),
{
    if ms.len() == 0 {
        b == a
    } else {
        exists|m: MergedNode| acks_applied(a, m, ms.drop_last()) && ack_post(m, b, ms.last())
    }
}

/// `b` is `a` after `SCD_forward_recieved` of each message of `ms`, in order.
pub open spec fn forwards_applied(a: MergedNode, b: MergedNode, ms: Seq<FORWARD>) -> bool
    decreases ms.len(),
{
    if ms.len() == 0 {
        b == a
    } else {
        exists|m: MergedNode| forwards_applied(a, m, ms.drop_last()) && forward_in_post(m, b, ms.last())
    }
}

/// One driver tick from `a` to `b` on `inbox`: per-tick gossip flags
/// cleared, heartbeats counted, failure detectors run, then the summaries,
/// `MSG`s, `MSGAck`s and `FORWARD`s of the inbox applied in that order, one
/// URB iteration and, unless only URB runs, one SCD iteration.
pub open spec fn tick_post(a: MergedNode, b: MergedNode, ss: bool, inbox: Seq<WireMessage>) -> bool {
    exists|s0: MergedNode| {
        &&& #[trigger] same_but_gossip_sent(a, s0)
        &&& s0.gossip_sent@ == Seq::new(a.n(), |_i: int| false)
        &&& s0.wf()
        &&& exists|s1: MergedNode| {
            &&& #[trigger] intake_all(s0, s1, inbox)
            &&& exists|s2: MergedNode| {
                &&& #[trigger] fd_post(s1, s2)
                &&& exists|s3: MergedNode| {
                    &&& #[trigger] gossips_applied(s2, s3, gossips_of(inbox))
                    &&& exists|s4: MergedNode| {
                        &&& #[trigger] msgs_applied(s3, s4, msgs_of(inbox))
                        &&& exists|s5: MergedNode| {
                            &&& #[trigger] acks_applied(s4, s5, acks_of(inbox))
                            &&& exists|s6: MergedNode| {
                                &&& #[trigger] forwards_applied(s5, s6, forwards_of(inbox))
                                &&& exists|s7: MergedNode| {
                                    &&& #[trigger] urb_iter_post(s6, s7, ss)
                                    &&& (a.settings.variant == Variant::URB ==> b == s7)
                                    &&& (a.settings.variant != Variant::URB ==> scd_iter_post(s7, b, ss))
                                }
                            }
                        }
                    }
                }
            }
        }
    }
}

/// All fields but the per-tick gossip flags are as before.
pub open spec fn same_but_gossip_sent(a: MergedNode, b: MergedNode) -> bool {
    &&& a.settings == b.settings
    &&& a.node_id == b.node_id
    &&& a.theta == b.theta
    &&& a.hbfd == b.hbfd
    &&& a.seq == b.seq
    &&& a.buffer == b.buffer
    &&& a.urb_rxObsS == b.urb_rxObsS
    &&& a.urb_txObsS == b.urb_txObsS
    &&& a.next_to_deliver == b.next_to_deliver
    &&& a.sn == b.sn
    &&& a.scd_rxObsS == b.scd_rxObsS
    &&& a.scd_txObsS == b.scd_txObsS
    &&& a.scd_rxSpace == b.scd_rxSpace
    &&& a.scd_txSpace == b.scd_txSpace
    &&& a.illegally_triggered_ss == b.illegally_triggered_ss
    &&& a.outbox == b.outbox
    &&& a.delivered == b.delivered
    &&& a.counter == b.counter
}

} // verus!
