use vstd::prelude::*;
use crate::bits::{bits_of, is_subset, subset_bits};
use crate::node::MergedNode;
use crate::record::BufferRecord;
use crate::types::{Int, NodeId, Tag};
use crate::urb::{max_seq_of, same_but_buffer, sat_add};

verus! {

/// A record with a URB tag lacks its payload, or repeats the tag of an
/// earlier record.
pub open spec fn urb_buffer_corrupt(buf: Seq<BufferRecord>) -> bool {
    exists|i: int|
        0 <= i < buf.len() && (#[trigger] buf[i]).urb_tag.is_some() && (buf[i].msg.is_none() || exists|j: int|
            0 <= j < i && buf[j].urb_tag == buf[i].urb_tag)
}

/// Some record carries the URB tag `(id, s)`.
pub open spec fn holds_tag(buf: Seq<BufferRecord>, id: NodeId, s: Int) -> bool {
    exists|j: int| 0 <= j < buf.len() && (#[trigger] buf[j]).urb_tag == Some(Tag { id: id, seq: s })
}

pub open spec fn sat_sub(a: Int, b: int) -> Int {
    if a - b < 0 {
        0
    } else {
        (a - b) as Int
    }
}

pub open spec fn max_i(a: Int, b: Int) -> Int {
    if a >= b { a } else { b }
}

impl MergedNode {
    /// Whether a URB record tagged `t` is still needed here.
    pub open spec fn urb_keep(&self, t: Tag) -> bool {
        if t.id == self.node_id {
            self.min_urb_tx() < t.seq
        } else {
            self.urb_rxObsS@[t.id - 1] < t.seq && self.urb_max_seq(t.id) <= t.seq + self.urb_unit()
        }
    }

    /// The local sequence number lies in `[m, m + window]`, where `m` is the
    /// trusted minimum of `urb_txObsS`.
    pub open spec fn urb_seq_reasonable(&self) -> bool {
        self.min_urb_tx() <= self.seq && self.seq <= self.min_urb_tx() + self.urb_unit()
    }

    /// Every sequence number of this node above the trusted minimum of
    /// `urb_txObsS`, up to the local one, has its record.
    pub open spec fn urb_seq_complete(&self) -> bool {
        forall|s: Int| self.min_urb_tx() < s <= self.seq ==> #[trigger] holds_tag(self.buffer@, self.node_id, s)
    }

    /// The URB part of the buffer is consistent; otherwise the whole buffer
    /// is dropped, which is always a legal state.
    pub fn clean_buffer_if_corrupted(&mut self)
        requires
            old(self).wf(),
        ensures
            final(self).wf(),
            !urb_buffer_corrupt(final(self).buffer@),
            urb_buffer_corrupt(old(self).buffer@) ==> final(self).buffer@.len() == 0
                && final(self).illegally_triggered_ss == (old(self).illegally_triggered_ss || !old(self).settings.is_failing_node),
            !urb_buffer_corrupt(old(self).buffer@) ==> *final(self) == *old(self),
            final(self).settings == old(self).settings,
            final(self).seq == old(self).seq,
            final(self).urb_rxObsS == old(self).urb_rxObsS,
            final(self).urb_txObsS == old(self).urb_txObsS,
            final(self).next_to_deliver == old(self).next_to_deliver,
            final(self).theta == old(self).theta,
            final(self).outbox == old(self).outbox,
            final(self).delivered == old(self).delivered,
    {
        let len = self.buffer.len();
        let mut corrupted = false;
        let mut i: usize = 0;
        while i < len && !corrupted
            invariant
                len == self.buffer@.len(),
                i <= len,
                corrupted ==> urb_buffer_corrupt(self.buffer@),
                !corrupted ==> forall|k: int| 0 <= k < i ==> !((#[trigger] self.buffer@[k]).urb_tag.is_some()
                    && (self.buffer@[k].msg.is_none() || exists|j: int| 0 <= j < k && self.buffer@[j].urb_tag == self.buffer@[k].urb_tag)),
            decreases len - i + if corrupted { 0int } else { 1int },
        {
            match self.buffer[i].urb_tag {
                Some(t) => {
                    if self.buffer[i].msg.is_none() {
                        corrupted = true;
                    } else {
                        let mut j: usize = 0;
                        while j < i && !corrupted
                            invariant
                                len == self.buffer@.len(),
                                i < len,
                                j <= i,
                                self.buffer@[i as int].urb_tag == Some(t),
                                corrupted ==> exists|q: int| 0 <= q < i && self.buffer@[q].urb_tag == self.buffer@[i as int].urb_tag,
                                !corrupted ==> forall|q: int| 0 <= q < j ==> self.buffer@[q].urb_tag != self.buffer@[i as int].urb_tag,
                            decreases i - j + if corrupted { 0int } else { 1int },
                        {
                            if self.buffer[j].urb_tag == Some(t) {
                                corrupted = true;
                            } else {
                                j = j + 1;
                            }
                        }
                    }
                    proof {
                        if corrupted {
                            assert(self.buffer@[i as int].urb_tag.is_some());
                        }
                    }
                },
                None => {},
            }
            if !corrupted {
                i = i + 1;
            }
        }
        if corrupted {
            self.buffer = Vec::new();
            if !self.settings.is_failing_node {
                self.illegally_triggered_ss = true;
            }
        }
        proof {
            if !corrupted {
                assert(!urb_buffer_corrupt(self.buffer@));
            }
        }
    }

    /// Whether a URB record of this node tagged `s` is held.
    pub fn has_own_urb_record(&self, s: Int) -> (r: bool)
        ensures
            r == holds_tag(self.buffer@, self.node_id, s),
    {
        self.get_index_by_urb_tag(&Tag { id: self.node_id, seq: s }).is_some()
    }

    /// Checks that the local sequence number is within the window above the
    /// trusted minimum of `urb_txObsS` and that each sequence number between
    /// them has its record; otherwise every entry of `urb_txObsS` is set to
    /// the local sequence number.
    pub fn reset_urb_txObsS_if_corrupted(&mut self)
        requires
            old(self).wf(),
        ensures
            final(self).wf(),
            same_but_tx_and_flag(*old(self), *final(self)),
            old(self).urb_seq_reasonable() && old(self).urb_seq_complete() ==> *final(self) == *old(self),
            !(old(self).urb_seq_reasonable() && old(self).urb_seq_complete()) ==> final(self).illegally_triggered_ss == (
                old(self).illegally_triggered_ss || !old(self).settings.is_failing_node),
            !(old(self).urb_seq_reasonable() && old(self).urb_seq_complete()) ==> final(self).urb_txObsS@
                == Seq::new(old(self).n(), |_i: int| old(self).seq),
            final(self).min_urb_tx() < Int::MAX ==> final(self).urb_seq_reasonable() && final(self).urb_seq_complete(),
    {
        let ms = self.min_urb_TxObsS();
        let unit = self.urb_buffer_unit_size();
        let reasonable = ms <= self.seq && (self.seq as u128) <= (ms as u128) + (unit as u128);
        let mut complete = true;
        if reasonable {
            let mut s: Int = ms;
            while s < self.seq && complete
                invariant
                    self.wf(),
                    self == old(self),
                    ms == self.min_urb_tx(),
                    ms <= s <= self.seq,
                    complete ==> forall|q: Int| ms < q <= s ==> #[trigger] holds_tag(self.buffer@, self.node_id, q),
                    !complete ==> !self.urb_seq_complete(),
                decreases self.seq - s + if complete { 1int } else { 0int },
            {
                if !self.has_own_urb_record(s + 1) {
                    complete = false;
                } else {
                    s = s + 1;
                }
            }
        }
        if !(reasonable && complete) {
            let n = self.settings.number_of_nodes;
            self.urb_txObsS = crate::node::filled(n, self.seq);
            if !self.settings.is_failing_node {
                self.illegally_triggered_ss = true;
            }
            proof {
                lemma_min_trusted_uniform(self.urb_txObsS@, self.trusted_view(), self.seq, n as int);
            }
        }
    }
}

impl MergedNode {
    /// No peer's `urb_rxObsS` lags more than a window behind the largest
    /// sequence number known of it.
    pub open spec fn urb_rx_bounded(&self) -> bool {
        forall|k: int| 1 <= k <= self.n() ==> #[trigger] self.urb_rxObsS@[k - 1] + self.urb_unit()
            >= self.urb_max_seq(k as NodeId)
    }

    /// Raises each `urb_rxObsS` entry to at least the largest known sequence
    /// number of that node minus the window, and `next_to_deliver` past it.
    pub fn adjust_urb_rxObsS_and_next_to_deliver_if_corrupted(&mut self)
        requires
            old(self).wf(),
        ensures
            final(self).wf(),
            final(self).buffer == old(self).buffer,
            final(self).seq == old(self).seq,
            final(self).urb_txObsS == old(self).urb_txObsS,
            final(self).theta == old(self).theta,
            final(self).settings == old(self).settings,
            final(self).outbox == old(self).outbox,
            final(self).delivered == old(self).delivered,
            forall|k: int| 1 <= k <= old(self).n() ==> #[trigger] final(self).urb_rxObsS@[k - 1] == max_i(
                old(self).urb_rxObsS@[k - 1], sat_sub(old(self).urb_max_seq(k as NodeId), old(self).urb_unit())),
            forall|k: int| 1 <= k <= old(self).n() ==> #[trigger] final(self).next_to_deliver@[k - 1] == max_i(
                old(self).next_to_deliver@[k - 1], sat_add(final(self).urb_rxObsS@[k - 1], 1)),
            final(self).urb_rx_bounded(),
    {
        let n = self.settings.number_of_nodes;
        let unit = self.urb_buffer_unit_size();
        let mut k: usize = 1;
        while k <= n
            invariant
                self.wf(),
                n == self.n(),
                unit == self.urb_unit(),
                1 <= k <= n + 1,
                self.buffer == old(self).buffer,
                self.seq == old(self).seq,
                self.urb_txObsS == old(self).urb_txObsS,
                self.theta == old(self).theta,
                self.settings == old(self).settings,
                self.outbox == old(self).outbox,
                self.delivered == old(self).delivered,
                self.illegally_triggered_ss ==> self.illegally_triggered_ss,
                forall|q: int| k <= q <= n ==> #[trigger] self.urb_rxObsS@[q - 1] == old(self).urb_rxObsS@[q - 1],
                forall|q: int| k <= q <= n ==> #[trigger] self.next_to_deliver@[q - 1] == old(self).next_to_deliver@[q - 1],
                forall|q: int| 1 <= q < k ==> #[trigger] self.urb_rxObsS@[q - 1] == max_i(
                    old(self).urb_rxObsS@[q - 1], sat_sub(old(self).urb_max_seq(q as NodeId), old(self).urb_unit())),
                forall|q: int| 1 <= q < k ==> #[trigger] self.next_to_deliver@[q - 1] == max_i(
                    old(self).next_to_deliver@[q - 1], sat_add(self.urb_rxObsS@[q - 1], 1)),
            decreases n + 1 - k,
        {
            let m = self.urb_maxSeq(k);
            assert(m == old(self).urb_max_seq(k as NodeId));
            let at_least = m.saturating_sub(unit);
            let rx = self.urb_rxObsS[k - 1];
            if rx < at_least {
                if !self.settings.is_failing_node {
                    self.illegally_triggered_ss = true;
                }
                self.urb_rxObsS.set(k - 1, at_least);
            }
            let rx2 = self.urb_rxObsS[k - 1];
            let d = self.next_to_deliver[k - 1];
            let d2 = rx2.saturating_add(1);
            if d2 > d {
                self.next_to_deliver.set(k - 1, d2);
            }
            k = k + 1;
        }
        proof {
            assert forall|q: int| 1 <= q <= self.n() implies #[trigger] self.urb_rxObsS@[q - 1] + self.urb_unit()
                >= self.urb_max_seq(q as NodeId) by {
                let o = old(self).urb_max_seq(q as NodeId);
                let a = max_seq_of(self.buffer@, q as NodeId, self.buffer@.len() as int);
                assert(a == max_seq_of(old(self).buffer@, q as NodeId, old(self).buffer@.len() as int));
            }
        }
    }

    /// Marks each URB record as needed or not: a record of this node is
    /// needed while above the trusted minimum of `urb_txObsS`; a record of
    /// another node while above its `urb_rxObsS` entry and within a window
    /// of the largest sequence number known of it. Records that neither
    /// layer needs are dropped.
    pub fn remove_unreasonable_urb_records_from_buffer(&mut self)
        requires
            old(self).wf(),
        ensures
            final(self).wf(),
            same_but_buffer(*old(self), *final(self)),
            final(self).buffer@.len() <= old(self).buffer@.len(),
            forall|j: int| 0 <= j < final(self).buffer@.len() ==> {
                let r = #[trigger] final(self).buffer@[j];
                r.urb_needed || r.meta.is_some()
            },
            forall|j: int| 0 <= j < final(self).buffer@.len() ==> {
                let r = #[trigger] final(self).buffer@[j];
                r.urb_tag.is_some() && r.urb_needed ==> old(self).urb_keep(r.urb_tag.unwrap())
            },
            forall|j: int| 0 <= j < old(self).buffer@.len() ==> {
                let r = #[trigger] old(self).buffer@[j];
                ((r.urb_tag.is_none() && r.urb_needed) || (r.urb_tag.is_some() && old(self).urb_keep(r.urb_tag.unwrap())) || r.meta.is_some())
                    ==> exists|q: int| 0 <= q < final(self).buffer@.len() && final(self).buffer@[q].urb_tag == r.urb_tag
                    && final(self).buffer@[q].meta == r.meta && final(self).buffer@[q].msg == r.msg
                    && final(self).buffer@[q].delivered == r.delivered
            },
            forall|j: int| 0 <= j < final(self).buffer@.len() ==> exists|q: int| 0 <= q < old(self).buffer@.len()
                && (#[trigger] final(self).buffer@[j]).urb_tag == old(self).buffer@[q].urb_tag
                && final(self).buffer@[j].delivered == old(self).buffer@[q].delivered
                && final(self).buffer@[j].recBy == old(self).buffer@[q].recBy,
    {
        let n = self.settings.number_of_nodes;
        let unit = self.urb_buffer_unit_size();
        let min_tx = self.min_urb_TxObsS();
        let mut max_seqs: Vec<Int> = Vec::new();
        let mut k: usize = 1;
        while k <= n
            invariant
                self == old(self),
                self.wf(),
                n == self.n(),
                1 <= k <= n + 1,
                max_seqs@.len() == k - 1,
                forall|q: int| 1 <= q < k ==> #[trigger] max_seqs@[q - 1] == old(self).urb_max_seq(q as NodeId),
            decreases n + 1 - k,
        {
            max_seqs.push(self.urb_maxSeq(k));
            k = k + 1;
        }
        let mut old_buf: Vec<BufferRecord> = Vec::new();
        std::mem::swap(&mut old_buf, &mut self.buffer);
        let ghost ob = old_buf@;
        let total = old_buf.len();
        let mut taken: usize = 0;
        while old_buf.len() > 0
            invariant
                ob == old(self).buffer@,
                total == ob.len(),
                old_buf@ == ob.skip(taken as int),
                taken <= ob.len(),
                n == old(self).n(),
                unit == old(self).urb_unit(),
                min_tx == old(self).min_urb_tx(),
                max_seqs@.len() == n,
                old(self).wf(),
                forall|q: int| 1 <= q <= n ==> #[trigger] max_seqs@[q - 1] == old(self).urb_max_seq(q as NodeId),
                self.settings == old(self).settings,
                self.node_id == old(self).node_id,
                self.urb_rxObsS == old(self).urb_rxObsS,
                same_but_buffer(*old(self), *self),
                self.buffer@.len() <= taken,
                forall|j: int| 0 <= j < ob.len() ==> #[trigger] ob[j].wf(n as nat),
                forall|j: int| 0 <= j < self.buffer@.len() ==> #[trigger] self.buffer@[j].wf(n as nat),
                forall|j: int| 0 <= j < self.buffer@.len() ==> {
                    let r = #[trigger] self.buffer@[j];
                    r.urb_needed || r.meta.is_some()
                },
                forall|j: int| 0 <= j < self.buffer@.len() ==> exists|q: int| 0 <= q < ob.len()
                    && (#[trigger] self.buffer@[j]).urb_tag == ob[q].urb_tag
                    && self.buffer@[j].delivered == ob[q].delivered
                    && self.buffer@[j].recBy == ob[q].recBy,
                forall|j: int| 0 <= j < self.buffer@.len() ==> {
                    let r = #[trigger] self.buffer@[j];
                    r.urb_tag.is_some() && r.urb_needed ==> old(self).urb_keep(r.urb_tag.unwrap())
                },
                forall|j: int| 0 <= j < taken ==> {
                    let r = #[trigger] ob[j];
                    ((r.urb_tag.is_none() && r.urb_needed) || (r.urb_tag.is_some() && old(self).urb_keep(r.urb_tag.unwrap())) || r.meta.is_some())
                        ==> exists|q: int| 0 <= q < self.buffer@.len() && self.buffer@[q].urb_tag == r.urb_tag
                        && self.buffer@[q].meta == r.meta && self.buffer@[q].msg == r.msg
                        && self.buffer@[q].delivered == r.delivered
                },
            decreases old_buf@.len(),
        {
            assert(taken < ob.len());
            let mut r = old_buf.remove(0);
            assert(r == ob[taken as int]);
            assert(r.wf(n as nat));
            assert(self.urb_rxObsS@.len() == n);
            match r.urb_tag {
                Some(t) => {
                    let ok = if t.id == self.node_id {
                        min_tx < t.seq
                    } else {
                        self.urb_rxObsS[t.id - 1] < t.seq && (max_seqs[t.id - 1] as u128) <= (t.seq as u128) + (unit as u128)
                    };
                    r.urb_needed = ok;
                },
                None => {},
            }
            let ghost before = self.buffer@;
            if r.urb_needed || r.meta.is_some() {
                self.buffer.push(r);
            }
            proof {
                assert forall|j: int| 0 <= j < self.buffer@.len() implies exists|q: int| 0 <= q < ob.len()
                    && (#[trigger] self.buffer@[j]).urb_tag == ob[q].urb_tag
                    && self.buffer@[j].delivered == ob[q].delivered
                    && self.buffer@[j].recBy == ob[q].recBy by {
                    if j < before.len() {
                        assert(self.buffer@[j] == before[j]);
                    } else {
                        assert(self.buffer@[j].urb_tag == ob[taken as int].urb_tag);
                    }
                }
                assert(old_buf@ =~= ob.skip(taken + 1));
                assert forall|j: int| 0 <= j < taken + 1 implies {
                    let r = #[trigger] ob[j];
                    ((r.urb_tag.is_none() && r.urb_needed) || (r.urb_tag.is_some() && old(self).urb_keep(r.urb_tag.unwrap())) || r.meta.is_some())
                        ==> exists|q: int| 0 <= q < self.buffer@.len() && self.buffer@[q].urb_tag == r.urb_tag
                        && self.buffer@[q].meta == r.meta && self.buffer@[q].msg == r.msg
                        && self.buffer@[q].delivered == r.delivered
                } by {
                    let r2 = ob[j];
                    if j < taken {
                        if (r2.urb_tag.is_none() && r2.urb_needed) || (r2.urb_tag.is_some() && old(self).urb_keep(r2.urb_tag.unwrap())) || r2.meta.is_some() {
                            let q = choose|q: int| 0 <= q < before.len() && before[q].urb_tag == r2.urb_tag
                                && before[q].meta == r2.meta && before[q].msg == r2.msg && before[q].delivered == r2.delivered;
                            assert(self.buffer@[q] == before[q]);
                        }
                    } else {
                        if (r2.urb_tag.is_none() && r2.urb_needed) || (r2.urb_tag.is_some() && old(self).urb_keep(r2.urb_tag.unwrap())) || r2.meta.is_some() {
                            assert(self.buffer@[before.len() as int].urb_tag == r2.urb_tag);
                        }
                    }
                }
            }
            taken = taken + 1;
        }
    }
}

/// A record is obsolete: delivered, held by every trusted node, and next
/// after its sender's `urb_rxObsS` entry.
pub open spec fn urb_obsolete_spec(r: BufferRecord, rx: Seq<Int>, trusted: Seq<bool>) -> bool {
    r.urb_tag.is_some() && rx[r.urb_tag.unwrap().id - 1] + 1 == r.urb_tag.unwrap().seq && r.delivered
        && subset_bits(trusted, bits_of(r.recBy))
}

/// A delivered record of the node at position `i`, tagged `q`, held by every
/// trusted node.
pub open spec fn has_obsolete_record(buf: Seq<BufferRecord>, i: int, q: Int, trusted: Seq<bool>) -> bool {
    exists|j: int| 0 <= j < buf.len() && (#[trigger] buf[j]).urb_tag == Some(Tag { id: (i + 1) as NodeId, seq: q })
        && buf[j].delivered && subset_bits(trusted, bits_of(buf[j].recBy))
}

pub open spec fn is_ahead(r: BufferRecord, rx: Seq<Int>) -> bool {
    r.urb_tag.is_some() && rx[r.urb_tag.unwrap().id - 1] < r.urb_tag.unwrap().seq
}

/// Number of the first `k` records above their sender's `urb_rxObsS` entry.
pub open spec fn ahead_count(buf: Seq<BufferRecord>, rx: Seq<Int>, k: int) -> nat
    decreases k,
{
    if k <= 0 {
        0
    } else {
        ahead_count(buf, rx, k - 1) + if is_ahead(buf[k - 1], rx) { 1nat } else { 0nat }
    }
}

/// Raising `urb_rxObsS` entries never adds records above them, and one
/// record that drops below makes the count smaller.
pub proof fn lemma_ahead_mono(buf: Seq<BufferRecord>, rx1: Seq<Int>, rx2: Seq<Int>, k: int)
    requires
        0 <= k <= buf.len(),
        rx1.len() == rx2.len(),
        forall|i: int| 0 <= i < rx1.len() ==> rx1[i] <= rx2[i],
        forall|j: int| 0 <= j < buf.len() ==> ((#[trigger] buf[j]).urb_tag matches Some(t) ==> 1 <= t.id <= rx1.len()),
    ensures
        ahead_count(buf, rx2, k) <= ahead_count(buf, rx1, k),
        (exists|j: int| 0 <= j < k && is_ahead(buf[j], rx1) && !is_ahead(buf[j], rx2)) ==> ahead_count(buf, rx2, k)
            < ahead_count(buf, rx1, k),
    decreases k,
{
    if k > 0 {
        lemma_ahead_mono(buf, rx1, rx2, k - 1);
        let r = buf[k - 1];
        if is_ahead(r, rx2) {
            assert(is_ahead(r, rx1));
        }
        if exists|j: int| 0 <= j < k && is_ahead(buf[j], rx1) && !is_ahead(buf[j], rx2) {
            let j = choose|j: int| 0 <= j < k && is_ahead(buf[j], rx1) && !is_ahead(buf[j], rx2);
            if j < k - 1 {
                assert(exists|j2: int| 0 <= j2 < k - 1 && is_ahead(buf[j2], rx1) && !is_ahead(buf[j2], rx2));
            }
        }
    }
}

impl MergedNode {
    /// Whether the record at `index` is obsolete for `urb_rxObsS`.
    pub fn urb_obsolete(&self, index: usize) -> (r: bool)
        requires
            self.wf(),
            index < self.buffer@.len(),
        ensures
            r == urb_obsolete_spec(self.buffer@[index as int], self.urb_rxObsS@, self.trusted_view()),
    {
        assert(self.buffer@[index as int].wf(self.n()));
        match self.buffer[index].urb_tag {
            Some(t) => {
                let rx = self.urb_rxObsS[t.id - 1];
                rx < Int::MAX && rx + 1 == t.seq && self.buffer[index].delivered
                    && is_subset(&self.theta.current_trusted, &self.buffer[index].recBy)
            },
            None => false,
        }
    }

    /// Advances each `urb_rxObsS` entry past obsolete records, one sequence
    /// number at a time, until no record is obsolete.
    pub fn advance_urb_rxObsS_based_on_obs_record(&mut self)
        requires
            old(self).wf(),
        ensures
            final(self).wf(),
            final(self).buffer == old(self).buffer,
            final(self).seq == old(self).seq,
            final(self).urb_txObsS == old(self).urb_txObsS,
            final(self).next_to_deliver == old(self).next_to_deliver,
            final(self).theta == old(self).theta,
            final(self).settings == old(self).settings,
            final(self).outbox == old(self).outbox,
            final(self).delivered == old(self).delivered,
            final(self).illegally_triggered_ss == old(self).illegally_triggered_ss,
            forall|i: int| 0 <= i < old(self).n() ==> old(self).urb_rxObsS@[i] <= #[trigger] final(self).urb_rxObsS@[i],
            forall|i: int, q: Int| 0 <= i < old(self).n() && old(self).urb_rxObsS@[i] < q <= final(self).urb_rxObsS@[i]
                ==> #[trigger] has_obsolete_record(old(self).buffer@, i, q, old(self).trusted_view()),
            forall|j: int| 0 <= j < final(self).buffer@.len() ==> !urb_obsolete_spec(
                #[trigger] final(self).buffer@[j], final(self).urb_rxObsS@, final(self).trusted_view()),
    {
        let len = self.buffer.len();
        let mut changed = true;
        while changed
            invariant
                self.wf(),
                len == self.buffer@.len(),
                self.buffer == old(self).buffer,
                self.seq == old(self).seq,
                self.urb_txObsS == old(self).urb_txObsS,
                self.next_to_deliver == old(self).next_to_deliver,
                self.theta == old(self).theta,
                self.settings == old(self).settings,
                self.outbox == old(self).outbox,
                self.delivered == old(self).delivered,
                self.illegally_triggered_ss == old(self).illegally_triggered_ss,
                forall|i: int| 0 <= i < old(self).n() ==> old(self).urb_rxObsS@[i] <= #[trigger] self.urb_rxObsS@[i],
                forall|i: int, q: Int| 0 <= i < old(self).n() && old(self).urb_rxObsS@[i] < q <= self.urb_rxObsS@[i]
                    ==> #[trigger] has_obsolete_record(old(self).buffer@, i, q, old(self).trusted_view()),
                !changed ==> forall|j: int| 0 <= j < len ==> !urb_obsolete_spec(
                    #[trigger] self.buffer@[j], self.urb_rxObsS@, self.trusted_view()),
            decreases ahead_count(self.buffer@, self.urb_rxObsS@, len as int) + if changed { 1int } else { 0int },
        {
            changed = false;
            let ghost start = self.urb_rxObsS@;
            let mut i: usize = 0;
            while i < len
                invariant
                    self.wf(),
                    len == self.buffer@.len(),
                    i <= len,
                    start.len() == self.n(),
                    self.buffer == old(self).buffer,
                    self.seq == old(self).seq,
                    self.urb_txObsS == old(self).urb_txObsS,
                    self.next_to_deliver == old(self).next_to_deliver,
                    self.theta == old(self).theta,
                    self.settings == old(self).settings,
                    self.outbox == old(self).outbox,
                    self.delivered == old(self).delivered,
                    self.illegally_triggered_ss == old(self).illegally_triggered_ss,
                    forall|q: int| 0 <= q < old(self).n() ==> old(self).urb_rxObsS@[q] <= #[trigger] start[q],
                    forall|q: int| 0 <= q < start.len() ==> start[q] <= #[trigger] self.urb_rxObsS@[q],
                    forall|i: int, q: Int| 0 <= i < old(self).n() && old(self).urb_rxObsS@[i] < q <= self.urb_rxObsS@[i]
                        ==> #[trigger] has_obsolete_record(old(self).buffer@, i, q, old(self).trusted_view()),
                    changed ==> ahead_count(self.buffer@, self.urb_rxObsS@, len as int) < ahead_count(self.buffer@, start, len as int),
                    !changed ==> self.urb_rxObsS@ == start,
                    !changed ==> forall|j: int| 0 <= j < i ==> !urb_obsolete_spec(
                        #[trigger] self.buffer@[j], self.urb_rxObsS@, self.trusted_view()),
                decreases len - i,
            {
                if self.urb_obsolete(i) {
                    let ghost before = self.urb_rxObsS@;
                    let t = self.buffer[i].urb_tag.unwrap();
                    assert(self.buffer@[i as int].wf(self.n()));
                    let v = self.urb_rxObsS[t.id - 1];
                    self.urb_rxObsS.set(t.id - 1, v + 1);
                    proof {
                        assert forall|i2: int, q: Int| 0 <= i2 < old(self).n() && old(self).urb_rxObsS@[i2] < q <= self.urb_rxObsS@[i2]
                            implies #[trigger] has_obsolete_record(old(self).buffer@, i2, q, old(self).trusted_view()) by {
                            if i2 == t.id - 1 && q == v + 1 {
                                assert(self.buffer@[i as int].urb_tag == Some(Tag { id: (i2 + 1) as NodeId, seq: q }));
                            } else {
                                assert(before[i2] >= q || i2 != t.id - 1);
                            }
                        }
                        let b = self.buffer@;
                        assert forall|j: int| 0 <= j < b.len() implies ((#[trigger] b[j]).urb_tag matches Some(t2) ==> 1 <= t2.id <= before.len()) by {
                            assert(b[j].wf(self.n()));
                        }
                        assert(is_ahead(b[i as int], before));
                        assert(!is_ahead(b[i as int], self.urb_rxObsS@));
                        lemma_ahead_mono(b, before, self.urb_rxObsS@, len as int);
                        if !changed {
                            assert(before == start);
                        } else {
                            lemma_ahead_mono(b, start, before, len as int);
                        }
                        assert(is_ahead(b[i as int], start));
                        lemma_ahead_mono(b, start, self.urb_rxObsS@, len as int);
                    }
                    changed = true;
                }
                i = i + 1;
            }
        }
    }
}

/// Everything but `urb_txObsS` and the corruption flag is as before.
pub open spec fn same_but_tx_and_flag(a: MergedNode, b: MergedNode) -> bool {
    &&& a.settings == b.settings
    &&& a.node_id == b.node_id
    &&& a.theta == b.theta
    &&& a.hbfd == b.hbfd
    &&& a.seq == b.seq
    &&& a.buffer == b.buffer
    &&& a.urb_rxObsS == b.urb_rxObsS
    &&& a.next_to_deliver == b.next_to_deliver
    &&& a.sn == b.sn
    &&& a.scd_rxObsS == b.scd_rxObsS
    &&& a.scd_txObsS == b.scd_txObsS
    &&& a.scd_rxSpace == b.scd_rxSpace
    &&& a.scd_txSpace == b.scd_txSpace
    &&& a.gossip_sent == b.gossip_sent
    &&& a.outbox == b.outbox
    &&& a.delivered == b.delivered
}

/// The trusted minimum of a vector whose entries are all `v` is `v`, or
/// `Int::MAX` when nothing is trusted.
pub proof fn lemma_min_trusted_uniform(v: Seq<Int>, t: Seq<bool>, x: Int, k: int)
    requires
        0 <= k <= v.len(),
        forall|i: int| 0 <= i < v.len() ==> v[i] == x,
    ensures
        crate::urb::min_trusted(v, t, k) == x || crate::urb::min_trusted(v, t, k) == Int::MAX,
    decreases k,
{
    if k > 0 {
        lemma_min_trusted_uniform(v, t, x, k - 1);
    }
}

} // verus!
