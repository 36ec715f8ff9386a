use vstd::prelude::*;
use crate::bits::bits_get;
use crate::clock::entry_lt;
use crate::messages::{Payload, FORWARD, SCDMETA, WireMessage};
use crate::node::{filled, MergedNode};
use crate::record::BufferRecord;
use crate::scd::{max_int, saved_set};
use crate::types::{Int, NodeId, Tag};

verus! {

/// Two SCD records hold the same message of the same sender, or a record
/// lacks this node's clock entry.
pub open spec fn scd_buffer_dup_or_unknown(buf: Seq<BufferRecord>, self_id: NodeId) -> bool {
    exists|i: int|
        0 <= i < buf.len() && (#[trigger] buf[i]).meta.is_some() && (buf[i].meta.unwrap().cl@[self_id - 1].is_none()
            || exists|j: int|
            0 <= j < i && buf[j].meta.is_some() && buf[j].meta.unwrap().tag.id == buf[i].meta.unwrap().tag.id
                && buf[j].meta.unwrap().cl@[buf[j].meta.unwrap().tag.id - 1] == buf[i].meta.unwrap().cl@[buf[i].meta.unwrap().tag.id - 1])
}

/// Some sender holds more SCD messages than the window allows.
pub open spec fn scd_buffer_over_window(node: MergedNode) -> bool {
    exists|k: int| 1 <= k <= node.n() && #[trigger] saved_set(node.buffer@, k as NodeId).len() > node.settings.window_size
}

/// Number of the first `k` SCD records whose entry for `id` is known and
/// above `ms`.
pub open spec fn count_above(buf: Seq<BufferRecord>, id: NodeId, ms: Int, k: int) -> nat
    decreases k,
{
    if k <= 0 {
        0
    } else {
        count_above(buf, id, ms, k - 1) + if buf[k - 1].meta.is_some() && entry_lt(Some(ms), buf[k - 1].meta.unwrap().cl@[id - 1]) {
            1nat
        } else {
            0nat
        }
    }
}

/// Some SCD record has `s` as this node's clock entry.
pub open spec fn holds_own_sn(buf: Seq<BufferRecord>, id: NodeId, s: Int) -> bool {
    exists|j: int| 0 <= j < buf.len() && (#[trigger] buf[j]).meta.is_some() && buf[j].meta.unwrap().cl@[id - 1] == Some(s)
}

pub proof fn lemma_count_above_bound(buf: Seq<BufferRecord>, id: NodeId, ms: Int, k: int)
    requires
        0 <= k <= buf.len(),
    ensures
        count_above(buf, id, ms, k) <= k,
    decreases k,
{
    if k > 0 {
        lemma_count_above_bound(buf, id, ms, k - 1);
    }
}

impl MergedNode {
    /// The SCD counter is above the trusted minimum of `scd_txObsS`.
    pub open spec fn scd_sn_reasonable(&self) -> bool {
        self.min_scd_tx() < self.sn && self.sn - 1 <= self.min_scd_tx() + self.settings.window_size
    }

    /// Each local SCD number between the trusted minimum of `scd_txObsS`
    /// and the counter is held, by as many records as there are numbers,
    /// and every record knows this node's entry.
    pub open spec fn scd_sn_complete(&self) -> bool {
        let ms = self.min_scd_tx();
        &&& self.scd_sn_reasonable()
        &&& forall|j: int| 0 <= j < self.buffer@.len() && (#[trigger] self.buffer@[j]).meta.is_some()
            ==> self.buffer@[j].meta.unwrap().cl@[self.node_id - 1].is_some()
            && self.buffer@[j].meta.unwrap().cl@[self.node_id - 1].unwrap() < self.sn
        &&& count_above(self.buffer@, self.node_id, ms, self.buffer@.len() as int) == self.sn - 1 - ms
        &&& forall|s: Int| ms < s < self.sn ==> #[trigger] holds_own_sn(self.buffer@, self.node_id, s)
    }

    /// Whether some SCD record has `s` as this node's clock entry.
    pub fn holds_own_scd_number(&self, s: Int) -> (r: bool)
        requires
            self.wf(),
        ensures
            r == holds_own_sn(self.buffer@, self.node_id, s),
    {
        let mut i: usize = 0;
        while i < self.buffer.len()
            invariant
                self.wf(),
                i <= self.buffer@.len(),
                forall|j: int| 0 <= j < i ==> !((#[trigger] self.buffer@[j]).meta.is_some()
                    && self.buffer@[j].meta.unwrap().cl@[self.node_id - 1] == Some(s)),
            decreases self.buffer@.len() - i,
        {
            assert(self.buffer@[i as int].wf(self.n()));
            match &self.buffer[i].meta {
                Some(m) => {
                    if m.cl.get(self.node_id) == Some(s) {
                        return true;
                    }
                },
                None => {},
            }
            i = i + 1;
        }
        false
    }

    /// Checks that the SCD counter is above the trusted minimum of
    /// `scd_txObsS` and that the numbers between are exactly those held;
    /// otherwise `scd_txObsS` and this node's `scd_rxObsS` entry are all
    /// set to the counter minus one.
    pub fn reset_scd_txObsS_if_corrupted(&mut self)
        requires
            old(self).wf(),
        ensures
            final(self).wf(),
            final(self).buffer == old(self).buffer,
            final(self).sn == old(self).sn,
            final(self).settings == old(self).settings,
            final(self).theta == old(self).theta,
            final(self).outbox == old(self).outbox,
            final(self).delivered == old(self).delivered,
            old(self).scd_sn_complete() ==> *final(self) == *old(self),
            !old(self).scd_sn_complete() ==> final(self).illegally_triggered_ss == (old(self).illegally_triggered_ss
                || !old(self).settings.is_failing_node),
            !old(self).scd_sn_complete() ==> {
                let v = if old(self).sn >= 1 { (old(self).sn - 1) as Int } else { 0 };
                &&& final(self).scd_txObsS@ == Seq::new(old(self).n(), |_i: int| v)
                &&& final(self).scd_rxObsS@ == old(self).scd_rxObsS@.update(old(self).node_id - 1, v)
            },
            old(self).sn >= 1 && final(self).min_scd_tx() < Int::MAX ==> final(self).scd_sn_reasonable(),
    {
        let ms = self.min_scd_TxObsS();
        let len = self.buffer.len();
        let mut complete = ms < self.sn && (self.sn as u128) - 1 <= (ms as u128) + (self.settings.window_size as u128);
        // Every record knows this node's entry, below the counter; count those above `ms`.
        let mut above: usize = 0;
        let mut i: usize = 0;
        while i < len
            invariant
                self == old(self),
                self.wf(),
                len == self.buffer@.len(),
                ms == self.min_scd_tx(),
                i <= len,
                above == count_above(self.buffer@, self.node_id, ms, i as int),
                complete ==> self.scd_sn_reasonable(),
                complete ==> forall|j: int| 0 <= j < i && (#[trigger] self.buffer@[j]).meta.is_some()
                    ==> self.buffer@[j].meta.unwrap().cl@[self.node_id - 1].is_some()
                    && self.buffer@[j].meta.unwrap().cl@[self.node_id - 1].unwrap() < self.sn,
                !complete ==> !self.scd_sn_complete(),
            decreases len - i,
        {
            proof {
                lemma_count_above_bound(self.buffer@, self.node_id, ms, i as int);
            }
            assert(self.buffer@[i as int].wf(self.n()));
            match &self.buffer[i].meta {
                Some(m) => {
                    match m.cl.get(self.node_id) {
                        Some(v) => {
                            if v > ms {
                                above = above + 1;
                            }
                            if v >= self.sn {
                                complete = false;
                            }
                        },
                        None => {
                            complete = false;
                            above = above + 1;
                        },
                    }
                },
                None => {},
            }
            i = i + 1;
        }
        if complete && (above as u128) != (self.sn as u128) - 1 - (ms as u128) {
            complete = false;
        }
        if complete {
            let mut s: Int = ms + 1;
            while s < self.sn && complete
                invariant
                    self == old(self),
                    self.wf(),
                    ms == self.min_scd_tx(),
                    ms < s,
                    s <= self.sn,
                    complete ==> forall|q: Int| ms < q < s ==> #[trigger] holds_own_sn(self.buffer@, self.node_id, q),
                    !complete ==> !self.scd_sn_complete(),
                decreases self.sn - s + if complete { 1int } else { 0int },
            {
                if !self.holds_own_scd_number(s) {
                    complete = false;
                } else {
                    s = s + 1;
                }
            }
        }
        if !complete {
            let n = self.settings.number_of_nodes;
            let v = self.sn.saturating_sub(1);
            self.scd_txObsS = filled(n, v);
            self.scd_rxObsS.set(self.node_id - 1, v);
            if !self.settings.is_failing_node {
                self.illegally_triggered_ss = true;
            }
            proof {
                crate::recovery::lemma_min_trusted_uniform(self.scd_txObsS@, self.trusted_view(), v, n as int);
            }
        }
    }
}

impl MergedNode {
    /// The SCD part of the buffer is consistent and within the window;
    /// otherwise the whole buffer is dropped.
    pub fn scd_clean_buffer_if_corrupted(&mut self)
        requires
            old(self).wf(),
        ensures
            final(self).wf(),
            final(self).settings == old(self).settings,
            final(self).sn == old(self).sn,
            final(self).scd_rxObsS == old(self).scd_rxObsS,
            final(self).scd_txObsS == old(self).scd_txObsS,
            final(self).theta == old(self).theta,
            final(self).outbox == old(self).outbox,
            final(self).delivered == old(self).delivered,
            scd_buffer_dup_or_unknown(old(self).buffer@, old(self).node_id) || scd_buffer_over_window(*old(self))
                ==> final(self).buffer@.len() == 0,
            !(scd_buffer_dup_or_unknown(old(self).buffer@, old(self).node_id) || scd_buffer_over_window(*old(self)))
                ==> *final(self) == *old(self),
    {
        let n = self.settings.number_of_nodes;
        let len = self.buffer.len();
        let mut corrupted = false;
        let mut i: usize = 0;
        while i < len && !corrupted
            invariant
                self == old(self),
                self.wf(),
                n == self.n(),
                len == self.buffer@.len(),
                i <= len,
                corrupted ==> scd_buffer_dup_or_unknown(self.buffer@, self.node_id),
                !corrupted ==> forall|k: int| 0 <= k < i ==> !((#[trigger] self.buffer@[k]).meta.is_some() && (
                    self.buffer@[k].meta.unwrap().cl@[self.node_id - 1].is_none() || exists|j: int|
                    0 <= j < k && self.buffer@[j].meta.is_some() && self.buffer@[j].meta.unwrap().tag.id
                        == self.buffer@[k].meta.unwrap().tag.id && self.buffer@[j].meta.unwrap().cl@[self.buffer@[j].meta.unwrap().tag.id - 1]
                        == self.buffer@[k].meta.unwrap().cl@[self.buffer@[k].meta.unwrap().tag.id - 1])),
            decreases len - i + if corrupted { 0int } else { 1int },
        {
            assert(self.buffer@[i as int].wf(self.n()));
            match &self.buffer[i].meta {
                Some(m) => {
                    let sd = m.tag.id;
                    let cl_sd = m.cl.get(sd);
                    if m.cl.get(self.node_id).is_none() {
                        corrupted = true;
                    } else {
                        let mut j: usize = 0;
                        while j < i && !corrupted
                            invariant
                                self == old(self),
                                self.wf(),
                                i < len,
                                len == self.buffer@.len(),
                                j <= i,
                                self.buffer@[i as int].meta == Some(*m),
                                1 <= sd <= self.n(),
                                sd == m.tag.id,
                                cl_sd == m.cl@[sd - 1],
                                corrupted ==> exists|q: int| 0 <= q < i && self.buffer@[q].meta.is_some()
                                    && self.buffer@[q].meta.unwrap().tag.id == sd
                                    && self.buffer@[q].meta.unwrap().cl@[sd - 1] == cl_sd,
                                !corrupted ==> forall|q: int| 0 <= q < j ==> !(self.buffer@[q].meta.is_some()
                                    && self.buffer@[q].meta.unwrap().tag.id == sd
                                    && self.buffer@[q].meta.unwrap().cl@[sd - 1] == cl_sd),
                            decreases i - j + if corrupted { 0int } else { 1int },
                        {
                            assert(self.buffer@[j as int].wf(self.n()));
                            match &self.buffer[j].meta {
                                Some(mj) => {
                                    if mj.tag.id == sd && mj.cl.get(sd) == cl_sd {
                                        corrupted = true;
                                    }
                                },
                                None => {},
                            }
                            if !corrupted {
                                j = j + 1;
                            }
                        }
                    }
                    proof {
                        if corrupted {
                            assert(self.buffer@[i as int].meta.is_some());
                        }
                    }
                },
                None => {},
            }
            if !corrupted {
                i = i + 1;
            }
        }
        let mut k: usize = 1;
        while k <= n && !corrupted
            invariant
                self == old(self),
                self.wf(),
                n == self.n(),
                1 <= k <= n + 1,
                corrupted ==> scd_buffer_dup_or_unknown(self.buffer@, self.node_id) || scd_buffer_over_window(*self),
                !corrupted ==> !scd_buffer_dup_or_unknown(self.buffer@, self.node_id),
                !corrupted ==> forall|q: int| 1 <= q < k ==> #[trigger] saved_set(self.buffer@, q as NodeId).len()
                    <= self.settings.window_size,
            decreases n + 1 - k,
        {
            let saved = self.saved(k);
            if saved.len() as Int > self.settings.window_size {
                corrupted = true;
                proof {
                    let kk = k as int;
                    assert(saved_set(self.buffer@, kk as NodeId).len() > self.settings.window_size);
                    assert(scd_buffer_over_window(*self));
                }
            }
            k = k + 1;
        }
        if corrupted {
            self.buffer = Vec::new();
            if !self.settings.is_failing_node {
                self.illegally_triggered_ss = true;
            }
        }
    }
}

/// The SCD record is sent through URB by this node: its sender is this
/// node or is no longer trusted.
pub open spec fn scd_owned(m: SCDMETA, self_id: NodeId, trusted: Seq<bool>) -> bool {
    m.tag.id == self_id || !trusted[m.tag.id - 1]
}

/// An outgoing message that hands an SCD record of another, trusted sender
/// back to that sender: a `FORWARD` with the record's clock.
pub open spec fn is_scd_forward_back(node: MergedNode, e: (NodeId, WireMessage)) -> bool {
    exists|j: int|
        0 <= j < node.buffer@.len() && (#[trigger] node.buffer@[j]).meta.is_some() && !scd_owned(
            node.buffer@[j].meta.unwrap(),
            node.node_id,
            node.trusted_view(),
        ) && e.0 == node.buffer@[j].meta.unwrap().tag.id && (e.1 matches WireMessage::Forward(f)
            && f.cl@ == node.buffer@[j].meta.unwrap().cl@)
}

/// A transmission counter after one more try, capped at two.
pub open spec fn inc_to_two(c: Int) -> Int {
    if c >= 1 { 2 } else { (c + 1) as Int }
}

/// Record `r` is put back into the URB layer by `node`: it is this node's
/// to send, its last URB broadcast (if any) has terminated, and it has not
/// had its two tries after termination unless a forced retransmission is due.
pub open spec fn scd_resubmitted(node: MergedNode, r: BufferRecord, force: bool) -> bool {
    let m = r.meta.unwrap();
    &&& r.meta.is_some()
    &&& (m.txDes matches Some(t) ==> forall|j: int| 0 <= j < node.buffer@.len() && node.buffer@[j].urb_tag == Some(t)
        ==> node.buffer@[j].delivered)
    &&& !(m.txDes.is_some() && m.transmission_counter >= 2 && !force)
    &&& scd_owned(m, node.node_id, node.trusted_view())
}

impl MergedNode {
    /// Puts each SCD record whose last URB broadcast (if any) has terminated
    /// back into circulation: a record this node is responsible for (its
    /// own, or of an untrusted sender) is URB-broadcast again, in order of
    /// sequence number, at most twice after termination unless a forced
    /// retransmission is due; any other record is forwarded to its sender.
    pub fn handle_scd_records(&mut self, should_retransmit: bool)
        requires
            old(self).wf(),
        ensures
            final(self).wf(),
            final(self).settings == old(self).settings,
            final(self).sn == old(self).sn,
            final(self).next_to_deliver == old(self).next_to_deliver,
            final(self).delivered == old(self).delivered,
            final(self).theta == old(self).theta,
            final(self).buffer@.len() >= old(self).buffer@.len(),
            forall|j: int| 0 <= j < old(self).buffer@.len() ==> (#[trigger] final(self).buffer@[j]).delivered
                == old(self).buffer@[j].delivered,
            forall|j: int| 0 <= j < old(self).buffer@.len() ==> (#[trigger] final(self).buffer@[j]).meta.is_some()
                == old(self).buffer@[j].meta.is_some(),
            forall|j: int| 0 <= j < old(self).buffer@.len() && old(self).buffer@[j].meta.is_some()
                ==> (#[trigger] final(self).buffer@[j]).meta.unwrap().delivered == old(self).buffer@[j].meta.unwrap().delivered
                && final(self).buffer@[j].meta.unwrap().cl == old(self).buffer@[j].meta.unwrap().cl
                && final(self).buffer@[j].meta.unwrap().tag == old(self).buffer@[j].meta.unwrap().tag
                && (final(self).buffer@[j].meta.unwrap().transmission_counter <= 2
                    || final(self).buffer@[j].meta.unwrap().transmission_counter == old(self).buffer@[j].meta.unwrap().transmission_counter),
            old(self).outbox@.is_prefix_of(final(self).outbox@),
            final(self).seq >= old(self).seq,
            forall|j: int| 0 <= j < old(self).buffer@.len() && old(self).buffer@[j].meta.is_some() ==> {
                let t1 = (#[trigger] final(self).buffer@[j]).meta.unwrap().txDes;
                t1 == old(self).buffer@[j].meta.unwrap().txDes || (t1.is_some() && t1.unwrap().id == old(self).node_id
                    && old(self).seq < t1.unwrap().seq <= final(self).seq)
            },
            old(self).urb_space() && (exists|j: int| 0 <= j < old(self).buffer@.len() && #[trigger] scd_resubmitted(*old(self), old(self).buffer@[j], should_retransmit)
                && old(self).buffer@[j].msg.is_some()) ==> final(self).seq > old(self).seq,
            forall|j: int| 0 <= j < old(self).buffer@.len() && #[trigger] scd_resubmitted(*old(self), old(self).buffer@[j], should_retransmit)
                ==> final(self).buffer@[j].meta.unwrap().transmission_counter == inc_to_two(
                old(self).buffer@[j].meta.unwrap().transmission_counter),
            forall|q: int| old(self).outbox@.len() <= q < final(self).outbox@.len() ==> is_scd_forward_back(*old(self), #[trigger] final(self).outbox@[q]),
    {
        let len = self.buffer.len();
        let mut pending: Vec<(Int, usize)> = Vec::new();
        let mut i: usize = 0;
        while i < len
            invariant
                self.wf(),
                len == old(self).buffer@.len(),
                self.buffer@.len() == len,
                i <= len,
                self.settings == old(self).settings,
                self.node_id == old(self).node_id,
                self.sn == old(self).sn,
                self.seq == old(self).seq,
                self.next_to_deliver == old(self).next_to_deliver,
                self.delivered == old(self).delivered,
                self.theta == old(self).theta,
                old(self).outbox@.is_prefix_of(self.outbox@),
                forall|q: int| old(self).outbox@.len() <= q < self.outbox@.len() ==> is_scd_forward_back(*old(self), #[trigger] self.outbox@[q]),
                forall|k: int| 0 <= k < pending@.len() ==> (#[trigger] pending@[k]).1 < len,
                forall|j: int| 0 <= j < len ==> (#[trigger] self.buffer@[j]).delivered == old(self).buffer@[j].delivered
                    && self.buffer@[j].urb_tag == old(self).buffer@[j].urb_tag
                    && self.buffer@[j].msg == old(self).buffer@[j].msg
                    && self.buffer@[j].meta.is_some() == old(self).buffer@[j].meta.is_some(),
                forall|j: int| 0 <= j < len && old(self).buffer@[j].meta.is_some()
                    ==> (#[trigger] self.buffer@[j]).meta.unwrap().delivered == old(self).buffer@[j].meta.unwrap().delivered
                    && self.buffer@[j].meta.unwrap().cl == old(self).buffer@[j].meta.unwrap().cl
                    && self.buffer@[j].meta.unwrap().tag == old(self).buffer@[j].meta.unwrap().tag
                    && self.buffer@[j].meta.unwrap().txDes == old(self).buffer@[j].meta.unwrap().txDes
                    && (self.buffer@[j].meta.unwrap().transmission_counter <= 2
                        || self.buffer@[j].meta.unwrap().transmission_counter == old(self).buffer@[j].meta.unwrap().transmission_counter),
                forall|j: int| i <= j < len ==> #[trigger] self.buffer@[j] == old(self).buffer@[j],
                forall|j: int| 0 <= j < i && #[trigger] scd_resubmitted(*old(self), old(self).buffer@[j], should_retransmit) ==> exists|k: int| 0 <= k < pending@.len() && pending@[k].1 == j,
                self.urb_txObsS == old(self).urb_txObsS,
                forall|j: int| 0 <= j < i && #[trigger] scd_resubmitted(*old(self), old(self).buffer@[j], should_retransmit)
                    ==> self.buffer@[j].meta.unwrap().transmission_counter == inc_to_two(
                    old(self).buffer@[j].meta.unwrap().transmission_counter),
            decreases len - i,
        {
            assert(self.buffer@[i as int].wf(self.n()));
            let ghost pre = self.buffer@;
            let ghost pb = pending@;
            let mut step: Option<(bool, Int, Int)> = None;
            match &self.buffer[i].meta {
                Some(m) => {
                    let terminated = match m.txDes {
                        None => true,
                        Some(t) => self.urb_has_terminated(t),
                    };
                    proof {
                        if let Some(t) = m.txDes {
                            assert(terminated == (forall|j: int| 0 <= j < old(self).buffer@.len()
                                && old(self).buffer@[j].urb_tag == Some(t) ==> old(self).buffer@[j].delivered)) by {
                                if terminated {
                                    assert forall|j: int| 0 <= j < old(self).buffer@.len() && old(self).buffer@[j].urb_tag == Some(t)
                                        implies old(self).buffer@[j].delivered by {
                                        assert(self.buffer@[j].urb_tag == old(self).buffer@[j].urb_tag);
                                    }
                                } else {
                                    let j = choose|j: int| 0 <= j < self.buffer@.len() && self.buffer@[j].urb_tag == Some(t)
                                        && !self.buffer@[j].delivered;
                                    assert(self.buffer@[j].delivered == old(self).buffer@[j].delivered);
                                }
                            }
                        }
                    }
                    if terminated && !(m.txDes.is_some() && m.transmission_counter >= 2 && !should_retransmit) {
                        let owned = m.tag.id == self.node_id || bits_get(&self.theta.current_trusted, m.tag.id - 1) == Some(false);
                        step = Some((owned, m.tag.seq, m.transmission_counter));
                    }
                },
                None => {},
            }
            match step {
                Some((true, seq, counter)) => {
                    let c2 = if counter >= 1 { 2 } else { counter + 1 };
                    match &mut self.buffer[i].meta {
                        Some(m) => {
                            m.transmission_counter = c2;
                        },
                        None => {},
                    }
                    pending.push((seq, i));
                },
                Some((false, _, _)) => {
                    let target = self.buffer[i].meta.as_ref().unwrap().tag.id;
                    let cl = self.buffer[i].meta.as_ref().unwrap().cl.copied();
                    match &self.buffer[i].msg {
                        Some(Payload::Forward(fw)) => {
                            let f = FORWARD { msg: fw.msg.clone(), msg_tag: fw.msg_tag, forward_tag: fw.forward_tag, cl };
                            let ghost ob = self.outbox@;
                            self.outbox.push((target, WireMessage::Forward(f)));
                            proof {
                                assert(forall|q: int| 0 <= q < ob.len() ==> self.outbox@[q] == ob[q]);
                                assert(self.buffer@[i as int] == old(self).buffer@[i as int]);
                                assert(is_scd_forward_back(*old(self), self.outbox@[ob.len() as int]));
                            }
                        },
                        _ => {},
                    }
                },
                None => {},
            }
            proof {
                assert forall|j: int| 0 <= j < len implies #[trigger] self.buffer@[j].wf(self.n()) by {
                    if j != i {
                        assert(self.buffer@[j] == pre[j]);
                    } else {
                        assert(pre[j].wf(self.n()));
                    }
                }
            }
            proof {
                assert forall|j: int| 0 <= j < i + 1 && #[trigger] scd_resubmitted(*old(self), old(self).buffer@[j], should_retransmit) implies exists|k: int| 0 <= k < pending@.len()
                    && pending@[k].1 == j by {
                    if j < i {
                        let k = choose|k: int| 0 <= k < pb.len() && pb[k].1 == j;
                        assert(pending@[k] == pb[k]);
                    } else {
                        assert(pending@[pending@.len() - 1].1 == i);
                    }
                }
            }
            i = i + 1;
        }
        // Broadcast in order of sequence number.
        let ghost p1 = *self;
        while pending.len() > 0
            invariant
                p1.buffer@.len() == len,
                self.seq >= old(self).seq,
                self.urb_txObsS == old(self).urb_txObsS,
                self.node_id == old(self).node_id,
                forall|j: int| 0 <= j < old(self).buffer@.len() && old(self).buffer@[j].meta.is_some() ==> {
                    let t1 = (#[trigger] self.buffer@[j]).meta.unwrap().txDes;
                    t1 == old(self).buffer@[j].meta.unwrap().txDes || (t1.is_some() && t1.unwrap().id == old(self).node_id
                        && old(self).seq < t1.unwrap().seq <= self.seq)
                },
                forall|j: int| 0 <= j < len ==> (#[trigger] self.buffer@[j]).msg == old(self).buffer@[j].msg,
                self.seq == old(self).seq && old(self).urb_space() ==> forall|j: int| 0 <= j < len && #[trigger] scd_resubmitted(*old(self), old(self).buffer@[j], should_retransmit)
                    && old(self).buffer@[j].msg.is_some() ==> exists|k: int| 0 <= k < pending@.len() && pending@[k].1 == j,
                forall|j: int| 0 <= j < len && #[trigger] scd_resubmitted(*old(self), old(self).buffer@[j], should_retransmit)
                    ==> p1.buffer@[j].meta.unwrap().transmission_counter == inc_to_two(
                    old(self).buffer@[j].meta.unwrap().transmission_counter),
                forall|j: int| 0 <= j < len && old(self).buffer@[j].meta.is_some() ==> (#[trigger] self.buffer@[j]).meta.unwrap().transmission_counter
                    == p1.buffer@[j].meta.unwrap().transmission_counter,
                self.wf(),
                len == old(self).buffer@.len(),
                self.buffer@.len() >= len,
                self.settings == old(self).settings,
                self.sn == old(self).sn,
                self.next_to_deliver == old(self).next_to_deliver,
                self.delivered == old(self).delivered,
                self.theta == old(self).theta,
                old(self).outbox@.is_prefix_of(self.outbox@),
                forall|q: int| old(self).outbox@.len() <= q < self.outbox@.len() ==> is_scd_forward_back(*old(self), #[trigger] self.outbox@[q]),
                forall|k: int| 0 <= k < pending@.len() ==> (#[trigger] pending@[k]).1 < len,
                forall|j: int| 0 <= j < len ==> (#[trigger] self.buffer@[j]).delivered == old(self).buffer@[j].delivered
                    && self.buffer@[j].meta.is_some() == old(self).buffer@[j].meta.is_some(),
                forall|j: int| 0 <= j < len && old(self).buffer@[j].meta.is_some()
                    ==> (#[trigger] self.buffer@[j]).meta.unwrap().delivered == old(self).buffer@[j].meta.unwrap().delivered
                    && self.buffer@[j].meta.unwrap().cl == old(self).buffer@[j].meta.unwrap().cl
                    && self.buffer@[j].meta.unwrap().tag == old(self).buffer@[j].meta.unwrap().tag
                    && (self.buffer@[j].meta.unwrap().transmission_counter <= 2
                        || self.buffer@[j].meta.unwrap().transmission_counter == old(self).buffer@[j].meta.unwrap().transmission_counter),
            decreases pending@.len(),
        {
            let mut best: usize = 0;
            let mut q: usize = 1;
            while q < pending.len()
                invariant
                    best < pending@.len(),
                    1 <= q <= pending@.len(),
                    forall|k: int| 0 <= k < q ==> pending@[best as int].0 <= #[trigger] pending@[k].0,
                decreases pending@.len() - q,
            {
                if pending[q].0 < pending[best].0 {
                    best = q;
                }
                q = q + 1;
            }
            let ghost pb = pending@;
            let ghost seq0 = self.seq;
            let (_, idx) = pending.remove(best);
            let payload = crate::messages::copy_payload(&self.buffer[idx].msg);
            match payload {
                Some(p) => {
                    let ghost pre = self.buffer@;
                    let d = self.non_blocking_urb_broadcast(p, idx);
                    match d {
                        Some(t) => {
                            let ghost pre2 = self.buffer@;
                            assert(pre2[idx as int].wf(self.n()));
                            match &mut self.buffer[idx].meta {
                                Some(m) => {
                                    m.txDes = Some(t);
                                },
                                None => {},
                            }
                            proof {
                                assert forall|j: int| 0 <= j < self.buffer@.len() implies #[trigger] self.buffer@[j].wf(self.n()) by {
                                    if j != idx {
                                        assert(self.buffer@[j] == pre2[j]);
                                    }
                                }
                            }
                        },
                        None => {},
                    }
                },
                None => {},
            }
            proof {
                if self.seq == old(self).seq && old(self).urb_space() {
                    assert forall|j: int| 0 <= j < len && #[trigger] scd_resubmitted(*old(self), old(self).buffer@[j], should_retransmit)
                        && old(self).buffer@[j].msg.is_some() implies exists|k: int| 0 <= k < pending@.len() && pending@[k].1 == j by {
                        let k = choose|k: int| 0 <= k < pb.len() && pb[k].1 == j;
                        if k < best {
                            assert(pending@[k] == pb[k]);
                        } else if k > best {
                            assert(pending@[k - 1] == pb[k]);
                        }
                    }
                }
            }
        }
    }
}

/// The SCD record is obsolete for node `k`: SCD-delivered, through the URB
/// layer if this node is responsible for it, and next after `scd_rxObsS`
/// of `k`.
pub open spec fn scd_obsolete_spec(r: BufferRecord, k: int, rx: Seq<Int>, self_id: NodeId, trusted: Seq<bool>) -> bool {
    let m = r.meta.unwrap();
    &&& r.meta.is_some()
    &&& (m.txDes.is_some() && scd_owned(m, self_id, trusted)) || m.tag.id != self_id
    &&& rx[k - 1] < Int::MAX
    &&& m.cl@[k - 1] == Some((rx[k - 1] + 1) as Int)
    &&& m.delivered
}

/// Record `r` holds an SCD clock entry for position `k` above `rx`.
pub open spec fn is_scd_ahead(r: BufferRecord, rx: Seq<Int>, k: int) -> bool {
    r.meta.is_some() && r.meta.unwrap().cl@[k].is_some() && rx[k] < r.meta.unwrap().cl@[k].unwrap()
}

/// Number of positions among the first `k` where `r` is ahead of `rx`.
pub open spec fn rec_ahead(r: BufferRecord, rx: Seq<Int>, k: int) -> nat
    decreases k,
{
    if k <= 0 {
        0
    } else {
        rec_ahead(r, rx, k - 1) + if is_scd_ahead(r, rx, k - 1) { 1nat } else { 0nat }
    }
}

/// Number of (record, position) pairs among the first `j` records where
/// the record's clock is ahead of `rx`.
pub open spec fn scd_ahead(buf: Seq<BufferRecord>, rx: Seq<Int>, j: int) -> nat
    decreases j,
{
    if j <= 0 {
        0
    } else {
        scd_ahead(buf, rx, j - 1) + rec_ahead(buf[j - 1], rx, rx.len() as int)
    }
}

proof fn lemma_rec_ahead_mono(r: BufferRecord, rx1: Seq<Int>, rx2: Seq<Int>, k: int, p: int)
    requires
        0 <= k <= rx1.len(),
        rx1.len() == rx2.len(),
        forall|i: int| 0 <= i < rx1.len() ==> rx1[i] <= rx2[i],
    ensures
        rec_ahead(r, rx2, k) <= rec_ahead(r, rx1, k),
        0 <= p < k && is_scd_ahead(r, rx1, p) && !is_scd_ahead(r, rx2, p) ==> rec_ahead(r, rx2, k) < rec_ahead(r, rx1, k),
    decreases k,
{
    if k > 0 {
        lemma_rec_ahead_mono(r, rx1, rx2, k - 1, p);
    }
}

/// Raising `scd_rxObsS` entries never adds pairs ahead of them, and one
/// pair that drops below makes the count smaller.
pub proof fn lemma_scd_ahead_mono(buf: Seq<BufferRecord>, rx1: Seq<Int>, rx2: Seq<Int>, n: usize, j: int, jj: int, p: int)
    requires
        0 <= j <= buf.len(),
        rx1.len() == n,
        rx2.len() == n,
        forall|i: int| 0 <= i < n ==> rx1[i] <= rx2[i],
    ensures
        scd_ahead(buf, rx2, j) <= scd_ahead(buf, rx1, j),
        0 <= jj < j && 0 <= p < n && is_scd_ahead(buf[jj], rx1, p) && !is_scd_ahead(buf[jj], rx2, p)
            ==> scd_ahead(buf, rx2, j) < scd_ahead(buf, rx1, j),
    decreases j,
{
    if j > 0 {
        lemma_scd_ahead_mono(buf, rx1, rx2, n, j - 1, jj, p);
        lemma_rec_ahead_mono(buf[j - 1], rx1, rx2, n as int, p);
    }
}

/// Record `r` stays after SCD garbage collection: the SCD layer needs it,
/// or it is in the URB layer and that layer needs it.
pub open spec fn scd_gc_keep(r: BufferRecord) -> bool {
    if r.urb_tag.is_some() {
        r.scd_needed || r.urb_needed
    } else {
        r.scd_needed
    }
}

/// The records of `s` that stay, in order.
pub open spec fn scd_gc_filter(s: Seq<BufferRecord>) -> Seq<BufferRecord>
    decreases s.len(),
{
    if s.len() == 0 {
        s
    } else {
        let f = scd_gc_filter(s.drop_last());
        if scd_gc_keep(s.last()) {
            f.push(s.last())
        } else {
            f
        }
    }
}

/// `a` is `b` but for the `scd_needed` flag.
pub open spec fn same_but_scd_needed(a: BufferRecord, b: BufferRecord) -> bool {
    &&& a.urb_tag == b.urb_tag
    &&& a.msg == b.msg
    &&& a.delivered == b.delivered
    &&& a.recBy == b.recBy
    &&& a.recBy_trusted == b.recBy_trusted
    &&& a.prevHB == b.prevHB
    &&& a.urb_needed == b.urb_needed
    &&& a.meta == b.meta
}

/// A trusted node may still need record `r`, whose sender is another node:
/// its clock is ahead of what `node` knows that trusted node observed.
pub open spec fn trusted_peer_may_need(node: MergedNode, r: BufferRecord) -> bool {
    r.meta.is_some() && r.meta.unwrap().tag.id != node.node_id && exists|k: int|
        0 <= k < node.n() && #[trigger] node.trusted_view()[k] && entry_lt(
            Some(node.scd_ms_spec((k + 1) as NodeId)),
            r.meta.unwrap().cl@[k],
        )
}

impl MergedNode {
    /// Whether the record at `index` is obsolete for node `k`.
    pub fn scd_obsolete(&self, index: usize, k: NodeId) -> (r: bool)
        requires
            self.wf(),
            index < self.buffer@.len(),
            1 <= k <= self.n(),
        ensures
            r == scd_obsolete_spec(self.buffer@[index as int], k as int, self.scd_rxObsS@, self.node_id, self.trusted_view()),
    {
        assert(self.buffer@[index as int].wf(self.n()));
        match &self.buffer[index].meta {
            Some(m) => {
                let owned = m.tag.id == self.node_id || bits_get(&self.theta.current_trusted, m.tag.id - 1) == Some(false);
                let rx = self.scd_rxObsS[k - 1];
                ((m.txDes.is_some() && owned) || m.tag.id != self.node_id) && rx < Int::MAX && m.cl.get(k) == Some(rx + 1)
                    && m.delivered
            },
            None => false,
        }
    }

    /// Advances `scd_rxObsS` entries past obsolete SCD records, one sequence
    /// number at a time, until no record is obsolete for any node.
    pub fn advance_scd_rxObsS_based_on_obs_record(&mut self)
        requires
            old(self).wf(),
        ensures
            final(self).wf(),
            final(self).buffer == old(self).buffer,
            final(self).sn == old(self).sn,
            final(self).scd_txObsS == old(self).scd_txObsS,
            final(self).settings == old(self).settings,
            final(self).theta == old(self).theta,
            final(self).outbox == old(self).outbox,
            final(self).delivered == old(self).delivered,
            final(self).next_to_deliver == old(self).next_to_deliver,
            forall|i: int| 0 <= i < old(self).n() ==> old(self).scd_rxObsS@[i] <= #[trigger] final(self).scd_rxObsS@[i],
            forall|j: int, k: int| 0 <= j < final(self).buffer@.len() && 1 <= k <= final(self).n() ==> !#[trigger] scd_obsolete_spec(final(self).buffer@[j], k, final(self).scd_rxObsS@, final(self).node_id,
                final(self).trusted_view()),
    {
        let n = self.settings.number_of_nodes;
        let len = self.buffer.len();
        let mut changed = true;
        while changed
            invariant
                self.wf(),
                n == self.n(),
                len == self.buffer@.len(),
                self.buffer == old(self).buffer,
                self.sn == old(self).sn,
                self.scd_txObsS == old(self).scd_txObsS,
                self.settings == old(self).settings,
                self.node_id == old(self).node_id,
                self.theta == old(self).theta,
                self.outbox == old(self).outbox,
                self.delivered == old(self).delivered,
                self.next_to_deliver == old(self).next_to_deliver,
                forall|i: int| 0 <= i < old(self).n() ==> old(self).scd_rxObsS@[i] <= #[trigger] self.scd_rxObsS@[i],
                !changed ==> forall|j: int, k: int| 0 <= j < len && 1 <= k <= n ==> !#[trigger] scd_obsolete_spec(self.buffer@[j], k, self.scd_rxObsS@, self.node_id, self.trusted_view()),
            decreases scd_ahead(self.buffer@, self.scd_rxObsS@, len as int) + if changed { 1int } else { 0int },
        {
            changed = false;
            let ghost start = self.scd_rxObsS@;
            let mut i: usize = 0;
            while i < len
                invariant
                    self.wf(),
                    n == self.n(),
                    len == self.buffer@.len(),
                    i <= len,
                    start.len() == n,
                    self.buffer == old(self).buffer,
                    self.sn == old(self).sn,
                    self.scd_txObsS == old(self).scd_txObsS,
                    self.settings == old(self).settings,
                    self.node_id == old(self).node_id,
                    self.theta == old(self).theta,
                    self.outbox == old(self).outbox,
                    self.delivered == old(self).delivered,
                    self.next_to_deliver == old(self).next_to_deliver,
                    forall|q: int| 0 <= q < old(self).n() ==> old(self).scd_rxObsS@[q] <= #[trigger] start[q],
                    forall|q: int| 0 <= q < n ==> start[q] <= #[trigger] self.scd_rxObsS@[q],
                    changed ==> scd_ahead(self.buffer@, self.scd_rxObsS@, len as int) < scd_ahead(self.buffer@, start, len as int),
                    !changed ==> self.scd_rxObsS@ == start,
                    !changed ==> forall|j: int, k: int| 0 <= j < i && 1 <= k <= n ==> !#[trigger] scd_obsolete_spec(self.buffer@[j], k, self.scd_rxObsS@, self.node_id, self.trusted_view()),
                decreases len - i,
            {
                let mut k: usize = 1;
                while k <= n
                    invariant
                        self.wf(),
                        n == self.n(),
                        len == self.buffer@.len(),
                        i < len,
                        1 <= k <= n + 1,
                        start.len() == n,
                        self.buffer == old(self).buffer,
                        self.sn == old(self).sn,
                        self.scd_txObsS == old(self).scd_txObsS,
                        self.settings == old(self).settings,
                        self.node_id == old(self).node_id,
                        self.theta == old(self).theta,
                        self.outbox == old(self).outbox,
                        self.delivered == old(self).delivered,
                        self.next_to_deliver == old(self).next_to_deliver,
                        forall|q: int| 0 <= q < old(self).n() ==> old(self).scd_rxObsS@[q] <= #[trigger] start[q],
                        forall|q: int| 0 <= q < n ==> start[q] <= #[trigger] self.scd_rxObsS@[q],
                        changed ==> scd_ahead(self.buffer@, self.scd_rxObsS@, len as int) < scd_ahead(self.buffer@, start, len as int),
                        !changed ==> self.scd_rxObsS@ == start,
                        !changed ==> forall|j: int, q: int| 0 <= j < i && 1 <= q <= n ==> !#[trigger] scd_obsolete_spec(self.buffer@[j], q, self.scd_rxObsS@, self.node_id, self.trusted_view()),
                        !changed ==> forall|q: int| 1 <= q < k ==> !scd_obsolete_spec(
                            self.buffer@[i as int], q, self.scd_rxObsS@, self.node_id, self.trusted_view()),
                    decreases n + 1 - k,
                {
                    if self.scd_obsolete(i, k) {
                        let ghost before = self.scd_rxObsS@;
                        let v = self.scd_rxObsS[k - 1];
                        self.scd_rxObsS.set(k - 1, v + 1);
                        proof {
                            let b = self.buffer@;
                            assert forall|j: int| 0 <= j < b.len() implies ((#[trigger] b[j]).meta matches Some(m) ==> m.cl@.len() == n) by {
                                assert(b[j].wf(n as nat));
                            }
                            assert(b[i as int].wf(n as nat));
                            assert(is_scd_ahead(b[i as int], before, k - 1));
                            assert(!is_scd_ahead(b[i as int], self.scd_rxObsS@, k - 1));
                            lemma_scd_ahead_mono(b, before, self.scd_rxObsS@, n, len as int, i as int, k - 1);
                            if changed {
                                lemma_scd_ahead_mono(b, start, before, n, len as int, i as int, k - 1);
                            }
                        }
                        changed = true;
                    }
                    k = k + 1;
                }
                i = i + 1;
            }
        }
    }

    /// Clears `scd_needed` on SCD records that every trusted node has moved
    /// past, and drops records that neither layer needs.
    pub fn remove_unreasonable_scd_records_from_buffer(&mut self)
        requires
            old(self).wf(),
        ensures
            final(self).wf(),
            exists|mid: Seq<BufferRecord>| {
                &&& mid.len() == old(self).buffer@.len()
                &&& forall|j: int| 0 <= j < mid.len() ==> same_but_scd_needed(#[trigger] mid[j], old(self).buffer@[j])
                &&& forall|j: int| 0 <= j < mid.len() && #[trigger] trusted_peer_may_need(*old(self), old(self).buffer@[j])
                    ==> mid[j].scd_needed
                &&& forall|j: int| 0 <= j < mid.len() ==> ((#[trigger] mid[j]).meta.is_some() && mid[j].meta.unwrap().tag.id
                    != old(self).node_id && !trusted_peer_may_need(*old(self), mid[j]) ==> !mid[j].scd_needed)
                &&& final(self).buffer@ == scd_gc_filter(mid)
            },
            crate::urb::same_but_buffer(*old(self), *final(self)),
            final(self).buffer@.len() <= old(self).buffer@.len(),
            forall|j: int| 0 <= j < final(self).buffer@.len() ==> {
                let r = #[trigger] final(self).buffer@[j];
                if r.urb_tag.is_some() { r.scd_needed || r.urb_needed } else { r.scd_needed }
            },
            forall|j: int| 0 <= j < final(self).buffer@.len() ==> exists|q: int| 0 <= q < old(self).buffer@.len()
                && (#[trigger] final(self).buffer@[j]).urb_tag == old(self).buffer@[q].urb_tag
                && final(self).buffer@[j].meta == old(self).buffer@[q].meta
                && final(self).buffer@[j].msg == old(self).buffer@[q].msg
                && final(self).buffer@[j].delivered == old(self).buffer@[q].delivered,
            forall|j: int| 0 <= j < old(self).buffer@.len() && #[trigger] trusted_peer_may_need(*old(self), old(self).buffer@[j])
                ==> exists|q: int| 0 <= q < final(self).buffer@.len() && final(self).buffer@[q].urb_tag == old(self).buffer@[j].urb_tag
                && final(self).buffer@[q].meta == old(self).buffer@[j].meta && final(self).buffer@[q].msg == old(self).buffer@[j].msg
                && final(self).buffer@[q].delivered == old(self).buffer@[j].delivered,
            forall|j: int| 0 <= j < final(self).buffer@.len() ==> ((#[trigger] final(self).buffer@[j]).meta.is_some() && (#[trigger] final(self).buffer@[j]).meta.unwrap().tag.id != old(self).node_id && !trusted_peer_may_need(*old(self), (#[trigger] final(self).buffer@[j])) ==> !(#[trigger] final(self).buffer@[j]).scd_needed),
    {
        let n = self.settings.number_of_nodes;
        let msp = self.scd_msp();
        let mut ms: Vec<Int> = Vec::new();
        let mut trusted: Vec<bool> = Vec::new();
        let mut q: usize = 1;
        while q <= n
            invariant
                self == old(self),
                self.wf(),
                n == self.n(),
                1 <= q <= n + 1,
                ms@.len() == q - 1,
                trusted@.len() == q - 1,
                forall|k2: int| 0 <= k2 < ms@.len() ==> #[trigger] trusted@[k2] == old(self).trusted_view()[k2]
                    && (trusted@[k2] ==> ms@[k2] == old(self).scd_ms_spec((k2 + 1) as NodeId)),
            decreases n + 1 - q,
        {
            let t = bits_get(&self.theta.current_trusted, q - 1) == Some(true);
            trusted.push(t);
            ms.push(if t { self.scd_ms(q) } else { 0 });
            q = q + 1;
        }
        // First pass: records some trusted node may still need.
        let len = self.buffer.len();
        let mut clock_i: Vec<Int> = Vec::new();
        let mut i: usize = 0;
        while i < len
            invariant
                self.wf(),
                n == self.n(),
                len == self.buffer@.len(),
                i <= len,
                ms@.len() == n,
                trusted@.len() == n,
                old(self).wf(),
                forall|k2: int| 0 <= k2 < ms@.len() ==> #[trigger] trusted@[k2] == old(self).trusted_view()[k2]
                    && (trusted@[k2] ==> ms@[k2] == old(self).scd_ms_spec((k2 + 1) as NodeId)),
                crate::urb::same_but_buffer(*old(self), *self),
                forall|j: int| 0 <= j < len ==> same_but_scd_needed(#[trigger] self.buffer@[j], old(self).buffer@[j]),
                forall|j: int| 0 <= j < i && #[trigger] trusted_peer_may_need(*old(self), old(self).buffer@[j]) ==> self.buffer@[j].scd_needed,
                forall|j: int| 0 <= j < i ==> ((#[trigger] self.buffer@[j]).meta.is_some() && self.buffer@[j].meta.unwrap().tag.id != old(self).node_id && !trusted_peer_may_need(*old(self), self.buffer@[j]) ==> !self.buffer@[j].scd_needed),
            decreases len - i,
        {
            assert(self.buffer@[i as int].wf(self.n()));
            let mut new_flag: Option<bool> = None;
            match &self.buffer[i].meta {
                Some(m) => {
                    let own = m.tag.id == self.node_id;
                    if (msp.is_some() && !own) || (msp.is_none() && own) {
                        match m.cl.get(self.node_id) {
                            Some(v) => {
                                let mut seen = false;
                                let mut c: usize = 0;
                                while c < clock_i.len()
                                    invariant
                                        c <= clock_i@.len(),
                                    decreases clock_i@.len() - c,
                                {
                                    if clock_i[c] == v {
                                        seen = true;
                                    }
                                    c = c + 1;
                                }
                                if !seen {
                                    clock_i.push(v);
                                }
                            },
                            None => {},
                        }
                    }
                    let mut check = false;
                    let mut k: usize = 0;
                    while k < n
                        invariant
                            k <= n,
                            n == m.cl@.len(),
                            ms@.len() == n,
                            trusted@.len() == n,
                            1 <= self.node_id <= n,
                            own == (m.tag.id == self.node_id),
                            !own ==> (check <==> exists|k2: int| 0 <= k2 < k && #[trigger] trusted@[k2]
                                && entry_lt(Some(ms@[k2]), m.cl@[k2])),
                        decreases n - k,
                    {
                        if trusted[k] {
                            let ahead = match m.cl.vc[k] {
                                Some(c) => ms[k] < c,
                                None => true,
                            };
                            if !own {
                                if ahead {
                                    check = true;
                                }
                            } else {
                                let mine = m.cl.vc[self.node_id - 1];
                                let past_space = match (msp, mine) {
                                    (Some(p), Some(v)) => p <= v,
                                    (Some(_), None) => true,
                                    (None, _) => false,
                                };
                                if past_space || (msp.is_none() && ahead) {
                                    check = true;
                                }
                            }
                        }
                        k = k + 1;
                    }
                    new_flag = Some(check);
                },
                None => {},
            }
            proof {
                if trusted_peer_may_need(*old(self), old(self).buffer@[i as int]) {
                    let k3 = choose|k3: int| 0 <= k3 < old(self).n() && #[trigger] old(self).trusted_view()[k3]
                        && entry_lt(Some(old(self).scd_ms_spec((k3 + 1) as NodeId)), old(self).buffer@[i as int].meta.unwrap().cl@[k3]);
                    assert(trusted@[k3]);
                    assert(new_flag == Some(true));
                }
                let r0 = old(self).buffer@[i as int];
                if r0.meta.is_some() && r0.meta.unwrap().tag.id != old(self).node_id && !trusted_peer_may_need(*old(self), r0) {
                    if new_flag == Some(true) {
                        assert(exists|k2: int| 0 <= k2 < n && #[trigger] trusted@[k2]
                            && entry_lt(Some(ms@[k2]), r0.meta.unwrap().cl@[k2]));
                        let k2 = choose|k2: int| 0 <= k2 < n && #[trigger] trusted@[k2]
                            && entry_lt(Some(ms@[k2]), r0.meta.unwrap().cl@[k2]);
                        assert(old(self).trusted_view()[k2]);
                        assert(trusted_peer_may_need(*old(self), r0));
                    }
                }
            }
            match new_flag {
                Some(f) => {
                    let ghost pre = self.buffer@;
                    self.buffer[i].scd_needed = f;
                    proof {
                        assert forall|j: int| 0 <= j < len implies #[trigger] self.buffer@[j].wf(self.n()) by {
                            if j != i {
                                assert(self.buffer@[j] == pre[j]);
                            } else {
                                assert(pre[j].wf(self.n()));
                            }
                        }
                    }
                },
                None => {},
            }
            i = i + 1;
        }
        // Second pass: the oldest local clock values already seen by every
        // trusted node are no longer needed.
        let mut i: usize = 0;
        while i < len && clock_i.len() > 0
            invariant
                self.wf(),
                n == self.n(),
                len == self.buffer@.len(),
                i <= len,
                ms@.len() == n,
                trusted@.len() == n,
                old(self).wf(),
                forall|k2: int| 0 <= k2 < ms@.len() ==> #[trigger] trusted@[k2] == old(self).trusted_view()[k2]
                    && (trusted@[k2] ==> ms@[k2] == old(self).scd_ms_spec((k2 + 1) as NodeId)),
                crate::urb::same_but_buffer(*old(self), *self),
                forall|j: int| 0 <= j < len ==> same_but_scd_needed(#[trigger] self.buffer@[j], old(self).buffer@[j]),
                forall|j: int| 0 <= j < len && #[trigger] trusted_peer_may_need(*old(self), old(self).buffer@[j]) ==> self.buffer@[j].scd_needed,
                forall|j: int| 0 <= j < len ==> ((#[trigger] self.buffer@[j]).meta.is_some() && self.buffer@[j].meta.unwrap().tag.id != old(self).node_id && !trusted_peer_may_need(*old(self), self.buffer@[j]) ==> !self.buffer@[j].scd_needed),
            decreases len - i,
        {
            assert(self.buffer@[i as int].wf(self.n()));
            let mut clear = false;
            match &self.buffer[i].meta {
                Some(m) => {
                    let mut min_pos: usize = 0;
                    let mut c: usize = 1;
                    while c < clock_i.len()
                        invariant
                            clock_i@.len() > 0,
                            min_pos < clock_i@.len(),
                            1 <= c <= clock_i@.len(),
                        decreases clock_i@.len() - c,
                    {
                        if clock_i[c] < clock_i[min_pos] {
                            min_pos = c;
                        }
                        c = c + 1;
                    }
                    let min_ci = clock_i[min_pos];
                    if m.cl.get(self.node_id) == Some(min_ci) {
                        let mut all = true;
                        let mut k: usize = 0;
                        while k < n
                            invariant
                                k <= n,
                                n == m.cl@.len(),
                                ms@.len() == n,
                                trusted@.len() == n,
                                all ==> forall|k2: int| 0 <= k2 < k && #[trigger] trusted@[k2] ==> !entry_lt(Some(ms@[k2]), m.cl@[k2]),
                            decreases n - k,
                        {
                            if trusted[k] {
                                let covered = match m.cl.vc[k] {
                                    Some(c2) => ms[k] >= c2,
                                    None => false,
                                };
                                if !covered {
                                    all = false;
                                }
                            }
                            k = k + 1;
                        }
                        if all {
                            clear = true;
                            clock_i.remove(min_pos);
                        }
                    }
                },
                None => {},
            }
            proof {
                if clear && trusted_peer_may_need(*old(self), old(self).buffer@[i as int]) {
                    let k3 = choose|k3: int| 0 <= k3 < old(self).n() && #[trigger] old(self).trusted_view()[k3]
                        && entry_lt(Some(old(self).scd_ms_spec((k3 + 1) as NodeId)), old(self).buffer@[i as int].meta.unwrap().cl@[k3]);
                    assert(trusted@[k3]);
                }
            }
            if clear && self.buffer[i].scd_needed {
                let ghost pre = self.buffer@;
                self.buffer[i].scd_needed = false;
                proof {
                    assert forall|j: int| 0 <= j < len implies #[trigger] self.buffer@[j].wf(self.n()) by {
                        if j != i {
                            assert(self.buffer@[j] == pre[j]);
                        } else {
                            assert(pre[j].wf(self.n()));
                        }
                    }
                }
            }
            i = i + 1;
        }
        // Drop what neither layer needs.
        let mut old_buf: Vec<BufferRecord> = Vec::new();
        std::mem::swap(&mut old_buf, &mut self.buffer);
        let ghost ob = old_buf@;
        let total = old_buf.len();
        let mut taken: usize = 0;
        while old_buf.len() > 0
            invariant
                total == ob.len(),
                ob.len() == old(self).buffer@.len(),
                old_buf@ == ob.skip(taken as int),
                taken <= ob.len(),
                n == old(self).n(),
                crate::urb::same_but_buffer(*old(self), *self),
                forall|j: int| 0 <= j < ob.len() ==> #[trigger] ob[j].wf(n as nat),
                forall|j: int| 0 <= j < ob.len() ==> same_but_scd_needed(#[trigger] ob[j], old(self).buffer@[j]),
                self.buffer@ == scd_gc_filter(ob.take(taken as int)),
                self.buffer@.len() <= taken,
                forall|j: int| 0 <= j < ob.len() && #[trigger] trusted_peer_may_need(*old(self), old(self).buffer@[j]) ==> ob[j].scd_needed,
                forall|j: int| 0 <= j < ob.len() ==> ((#[trigger] ob[j]).meta.is_some() && ob[j].meta.unwrap().tag.id != old(self).node_id && !trusted_peer_may_need(*old(self), ob[j]) ==> !ob[j].scd_needed),
                forall|j: int| 0 <= j < self.buffer@.len() ==> ((#[trigger] self.buffer@[j]).meta.is_some() && self.buffer@[j].meta.unwrap().tag.id != old(self).node_id && !trusted_peer_may_need(*old(self), self.buffer@[j]) ==> !self.buffer@[j].scd_needed),
                forall|j: int| 0 <= j < taken && #[trigger] trusted_peer_may_need(*old(self), old(self).buffer@[j])
                    ==> exists|q: int| 0 <= q < self.buffer@.len() && self.buffer@[q].urb_tag == old(self).buffer@[j].urb_tag
                    && self.buffer@[q].meta == old(self).buffer@[j].meta && self.buffer@[q].msg == old(self).buffer@[j].msg
                    && self.buffer@[q].delivered == old(self).buffer@[j].delivered,
                forall|j: int| 0 <= j < self.buffer@.len() ==> #[trigger] self.buffer@[j].wf(n as nat),
                forall|j: int| 0 <= j < self.buffer@.len() ==> {
                    let r = #[trigger] self.buffer@[j];
                    if r.urb_tag.is_some() { r.scd_needed || r.urb_needed } else { r.scd_needed }
                },
                forall|j: int| 0 <= j < self.buffer@.len() ==> exists|q: int| 0 <= q < old(self).buffer@.len()
                    && (#[trigger] self.buffer@[j]).urb_tag == old(self).buffer@[q].urb_tag
                    && self.buffer@[j].meta == old(self).buffer@[q].meta
                    && self.buffer@[j].msg == old(self).buffer@[q].msg
                    && self.buffer@[j].delivered == old(self).buffer@[q].delivered,
            decreases old_buf@.len(),
        {
            assert(taken < ob.len());
            let r = old_buf.remove(0);
            assert(r == ob[taken as int]);
            assert(ob.take(taken + 1).drop_last() =~= ob.take(taken as int));
            let keep = if r.urb_tag.is_some() { r.scd_needed || r.urb_needed } else { r.scd_needed };
            let ghost before = self.buffer@;
            if keep {
                self.buffer.push(r);
            }
            proof {
                assert(old_buf@ =~= ob.skip(taken + 1));
                assert forall|j: int| 0 <= j < taken + 1 && #[trigger] trusted_peer_may_need(*old(self), old(self).buffer@[j])
                    implies exists|q: int| 0 <= q < self.buffer@.len() && self.buffer@[q].urb_tag == old(self).buffer@[j].urb_tag
                    && self.buffer@[q].meta == old(self).buffer@[j].meta && self.buffer@[q].msg == old(self).buffer@[j].msg
                    && self.buffer@[q].delivered == old(self).buffer@[j].delivered by {
                    if j < taken {
                        let q = choose|q: int| 0 <= q < before.len() && before[q].urb_tag == old(self).buffer@[j].urb_tag
                            && before[q].meta == old(self).buffer@[j].meta && before[q].msg == old(self).buffer@[j].msg
                            && before[q].delivered == old(self).buffer@[j].delivered;
                        assert(self.buffer@[q] == before[q]);
                    } else {
                        assert(ob[j].scd_needed);
                        assert(self.buffer@[before.len() as int] == ob[j]);
                    }
                }
                assert forall|j: int| 0 <= j < self.buffer@.len() implies exists|q: int| 0 <= q < old(self).buffer@.len()
                    && (#[trigger] self.buffer@[j]).urb_tag == old(self).buffer@[q].urb_tag
                    && self.buffer@[j].meta == old(self).buffer@[q].meta
                    && self.buffer@[j].msg == old(self).buffer@[q].msg
                    && self.buffer@[j].delivered == old(self).buffer@[q].delivered by {
                    if j < before.len() {
                        assert(self.buffer@[j] == before[j]);
                    } else {
                        assert(self.buffer@[j] == ob[taken as int]);
                        assert(ob[taken as int].urb_tag == old(self).buffer@[taken as int].urb_tag);
                    }
                }
            }
            taken = taken + 1;
        }
        proof {
            assert(ob.take(ob.len() as int) =~= ob);
        }
    }
}

/// Every clock entry is at most the matching entry of `ms`.
pub fn scd_safe_rm(ms: &Vec<Int>, clocks: &Vec<Int>) -> (r: bool)
    ensures
        r == (clocks@.len() <= ms@.len() && forall|k: int| 0 <= k < clocks@.len() ==> clocks@[k] <= ms@[k]),
{
    if clocks.len() > ms.len() {
        return false;
    }
    let mut k: usize = 0;
    while k < clocks.len()
        invariant
            clocks@.len() <= ms@.len(),
            k <= clocks@.len(),
            forall|q: int| 0 <= q < k ==> clocks@[q] <= ms@[q],
        decreases clocks@.len() - k,
    {
        if clocks[k] > ms[k] {
            return false;
        }
        k = k + 1;
    }
    true
}

impl MergedNode {
    /// Smallest `scd_rxObsS` entry over the trusted nodes.
    pub fn min_scd_RxObsS(&self) -> (r: Int)
        requires
            self.wf(),
        ensures
            r == crate::urb::min_trusted(self.scd_rxObsS@, self.trusted_view(), self.n() as int),
    {
        let n = self.settings.number_of_nodes;
        let mut min_s: Int = Int::MAX;
        let mut i: usize = 0;
        while i < n
            invariant
                self.wf(),
                n == self.n(),
                i <= n,
                min_s == crate::urb::min_trusted(self.scd_rxObsS@, self.trusted_view(), i as int),
            decreases n - i,
        {
            if bits_get(&self.theta.current_trusted, i) == Some(true) && self.scd_rxObsS[i] < min_s {
                min_s = self.scd_rxObsS[i];
            }
            i = i + 1;
        }
        min_s
    }

    /// Raises each `scd_rxObsS` entry to at least the largest SCD number
    /// known of that node minus the URB window.
    pub fn adjust_scd_rxObsS_if_corrupted(&mut self)
        requires
            old(self).wf(),
        ensures
            final(self).wf(),
            final(self).buffer == old(self).buffer,
            final(self).sn == old(self).sn,
            final(self).scd_txObsS == old(self).scd_txObsS,
            final(self).settings == old(self).settings,
            final(self).outbox == old(self).outbox,
            final(self).delivered == old(self).delivered,
            forall|k: int| 1 <= k <= old(self).n() ==> #[trigger] final(self).scd_rxObsS@[k - 1] == max_int(
                old(self).scd_rxObsS@[k - 1], crate::recovery::sat_sub(old(self).scd_max_seq(k as NodeId), old(self).settings.window_size * old(self).n())),
    {
        let n = self.settings.number_of_nodes;
        proof {
            assert(self.settings.window_size * n <= crate::node::MAX_WINDOW * crate::node::MAX_NODES) by (nonlinear_arith)
                requires
                    self.settings.window_size <= crate::node::MAX_WINDOW,
                    n <= crate::node::MAX_NODES,
            ;
        }
        let span = self.settings.window_size * (n as Int);
        let mut k: usize = 1;
        while k <= n
            invariant
                self.wf(),
                n == self.n(),
                span == old(self).settings.window_size * old(self).n(),
                1 <= k <= n + 1,
                self.buffer == old(self).buffer,
                self.sn == old(self).sn,
                self.scd_txObsS == old(self).scd_txObsS,
                self.settings == old(self).settings,
                self.outbox == old(self).outbox,
                self.delivered == old(self).delivered,
                forall|q: int| k <= q <= n ==> #[trigger] self.scd_rxObsS@[q - 1] == old(self).scd_rxObsS@[q - 1],
                forall|q: int| 1 <= q < k ==> #[trigger] self.scd_rxObsS@[q - 1] == max_int(
                    old(self).scd_rxObsS@[q - 1], crate::recovery::sat_sub(old(self).scd_max_seq(q as NodeId), span as int)),
            decreases n + 1 - k,
        {
            let m = self.scd_maxSeq(k);
            assert(m == old(self).scd_max_seq(k as NodeId)) by {
                assert(crate::scd::scd_max_of(self.buffer@, k, self.buffer@.len() as int)
                    == crate::scd::scd_max_of(old(self).buffer@, k, old(self).buffer@.len() as int));
            }
            let at_least = m.saturating_sub(span);
            let rx = self.scd_rxObsS[k - 1];
            if rx < at_least {
                if !self.settings.is_failing_node {
                    self.illegally_triggered_ss = true;
                }
                self.scd_rxObsS.set(k - 1, at_least);
            }
            k = k + 1;
        }
    }

    /// The URB tag of the record holding the SCD message `scd_tag`, if it
    /// has one.
    pub fn get_urb_tag(&self, scd_tag: &Tag) -> (r: Option<Tag>)
        requires
            self.wf(),
            1 <= scd_tag.id <= self.n(),
        ensures
            r.is_some() ==> exists|j: int| 0 <= j < self.buffer@.len() && crate::scd::scd_match(#[trigger] self.buffer@[j], *scd_tag)
                && self.buffer@[j].urb_tag == r,
            r.is_none() ==> forall|j: int| 0 <= j < self.buffer@.len() && crate::scd::scd_match(#[trigger] self.buffer@[j], *scd_tag)
                ==> self.buffer@[j].urb_tag.is_none(),
    {
        let mut i: usize = 0;
        while i < self.buffer.len()
            invariant
                self.wf(),
                1 <= scd_tag.id <= self.n(),
                i <= self.buffer@.len(),
                forall|j: int| 0 <= j < i && crate::scd::scd_match(#[trigger] self.buffer@[j], *scd_tag)
                    ==> self.buffer@[j].urb_tag.is_none(),
            decreases self.buffer@.len() - i,
        {
            assert(self.buffer@[i as int].wf(self.n()));
            match &self.buffer[i].meta {
                Some(m) => {
                    if m.tag.id == scd_tag.id && m.cl.get(scd_tag.id) == Some(scd_tag.seq) && self.buffer[i].urb_tag.is_some() {
                        return self.buffer[i].urb_tag;
                    }
                },
                None => {},
            }
            i = i + 1;
        }
        None
    }

    /// The SCD message held by the first record tagged `tag`, if any.
    pub fn get_scd_tag(&self, tag: &Tag) -> (r: Option<Tag>)
        ensures
            r matches Some(t) ==> exists|j: int| 0 <= j < self.buffer@.len() && (#[trigger] self.buffer@[j]).urb_tag == Some(*tag)
                && self.buffer@[j].meta.is_some() && self.buffer@[j].meta.unwrap().tag == t,
            r.is_none() ==> forall|j: int| 0 <= j < self.buffer@.len() && (#[trigger] self.buffer@[j]).urb_tag == Some(*tag)
                ==> self.buffer@[j].meta.is_none(),
    {
        let mut i: usize = 0;
        while i < self.buffer.len()
            invariant
                i <= self.buffer@.len(),
                forall|j: int| 0 <= j < i && (#[trigger] self.buffer@[j]).urb_tag == Some(*tag) ==> self.buffer@[j].meta.is_none(),
            decreases self.buffer@.len() - i,
        {
            if self.buffer[i].urb_tag == Some(*tag) {
                match &self.buffer[i].meta {
                    Some(m) => {
                        return Some(m.tag);
                    },
                    None => {},
                }
            }
            i = i + 1;
        }
        None
    }
}

} // verus!
