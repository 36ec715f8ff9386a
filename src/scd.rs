use vstd::prelude::*;
use crate::step::{scd_gossip_post};
use vstd::string::StringSliceAdditionalSpecFns;
use vstd::utf8::encode_utf8;
use crate::bits::{bits_get, bits_of, bits_filled, bits_set};
use crate::clock::{cannot_deliver, cannot_deliver_spec, majority_aware, majority_aware_spec, merge_clock, VectorClock};
use crate::messages::{is_prefix, json_is_MINUS_Message, json_is_PLUS_Message, FORWARD, Payload, SCDGOSSIP, SCDMETA};
use crate::node::{Delivery, filled_opt, MergedNode};
use crate::record::BufferRecord;
use crate::types::{StatusCode, Variant, Int, NodeId, Tag};
use crate::urb::{same_but_buffer, min_trusted};

verus! {

/// `v` is the clock entry of its own sender in some SCD record of sender `id`.
pub open spec fn in_saved(buf: Seq<BufferRecord>, id: NodeId, v: Int) -> bool {
    exists|j: int|
        0 <= j < buf.len() && (#[trigger] buf[j]).meta.is_some() && buf[j].meta.unwrap().tag.id == id
            && buf[j].meta.unwrap().cl@[id - 1] == Some(v)
}

/// The sequence numbers of sender `id` that SCD records still hold.
pub open spec fn saved_set(buf: Seq<BufferRecord>, id: NodeId) -> Set<Int> {
    Set::new(|v: Int| in_saved(buf, id, v))
}

/// Largest known clock entry of node `id` among the first `k` SCD records.
pub open spec fn scd_max_of(buf: Seq<BufferRecord>, id: NodeId, k: int) -> Int
    decreases k,
{
    if k <= 0 {
        0
    } else {
        let m = scd_max_of(buf, id, k - 1);
        let r = buf[k - 1];
        if r.meta.is_some() && r.meta.unwrap().cl@[id - 1].is_some() && r.meta.unwrap().cl@[id - 1].unwrap() > m {
            r.meta.unwrap().cl@[id - 1].unwrap()
        } else {
            m
        }
    }
}

/// Smallest known `scd_txSpace` over the trusted peers other than `self_id`,
/// among the first `k`.
pub open spec fn min_space(sp: Seq<Option<Int>>, t: Seq<bool>, self_id: NodeId, k: int) -> Option<Int>
    decreases k,
{
    if k <= 0 {
        None
    } else {
        let m = min_space(sp, t, self_id, k - 1);
        if t[k - 1] && k != self_id && sp[k - 1].is_some() {
            match m {
                Some(x) => if sp[k - 1].unwrap() < x { sp[k - 1] } else { m },
                None => sp[k - 1],
            }
        } else {
            m
        }
    }
}

/// Record `r` holds the SCD message `t`: sender `t.id`, whose own clock
/// entry is `t.seq`.
pub open spec fn scd_match(r: BufferRecord, t: Tag) -> bool {
    r.meta.is_some() && r.meta.unwrap().tag.id == t.id && r.meta.unwrap().cl@[t.id - 1] == Some(t.seq)
}

/// Position of the first record holding the SCD message `t`.
pub open spec fn find_scd(buf: Seq<BufferRecord>, t: Tag) -> Option<int> {
    if exists|i: int| 0 <= i < buf.len() && scd_match(buf[i], t) {
        Some(choose|i: int| 0 <= i < buf.len() && scd_match(buf[i], t) && forall|j: int| 0 <= j < i ==> !scd_match(buf[j], t))
    } else {
        None
    }
}

/// When some record holds the SCD message `t`, `find_scd` gives the first one.
pub proof fn lemma_find_scd_first(buf: Seq<BufferRecord>, t: Tag, i: int)
    requires
        0 <= i < buf.len(),
        scd_match(buf[i], t),
    ensures
        find_scd(buf, t) matches Some(c) && 0 <= c <= i && scd_match(buf[c], t)
            && forall|j: int| 0 <= j < c ==> !scd_match(buf[j], t),
    decreases i,
{
    if exists|j: int| 0 <= j < i && scd_match(buf[j], t) {
        let j = choose|j: int| 0 <= j < i && scd_match(buf[j], t);
        lemma_find_scd_first(buf, t, j);
    } else {
        assert(0 <= i < buf.len() && scd_match(buf[i], t) && forall|j: int| 0 <= j < i ==> !scd_match(buf[j], t));
    }
    let c = find_scd(buf, t).unwrap();
    if c > i {
        assert(!scd_match(buf[i], t));
    }
}

pub open spec fn opt_clock(c: Option<VectorClock>) -> Option<Seq<Option<Int>>> {
    match c {
        Some(v) => Some(v@),
        None => None,
    }
}

/// `new` is `old` with the forward `f` and clock `c` merged into its SCD clock.
pub open spec fn is_forward_merged(old: BufferRecord, new: BufferRecord, f: Tag, c: Option<Seq<Option<Int>>>) -> bool {
    let om = old.meta.unwrap();
    let nm = new.meta.unwrap();
    &&& new.urb_tag == old.urb_tag
    &&& new.delivered == old.delivered
    &&& new.recBy == old.recBy
    &&& new.recBy_trusted == old.recBy_trusted
    &&& new.prevHB == old.prevHB
    &&& new.urb_needed == old.urb_needed
    &&& new.scd_needed == old.scd_needed
    &&& new.meta.is_some()
    &&& nm.tag == om.tag
    &&& nm.delivered == om.delivered
    &&& nm.txDes == om.txDes
    &&& nm.transmission_counter == om.transmission_counter
    &&& nm.cl@ == merge_clock(om.cl@, f, c)
    &&& match old.msg {
        Some(Payload::Forward(fw)) => new.msg matches Some(Payload::Forward(nf)) && nf.msg == fw.msg
            && nf.msg_tag == fw.msg_tag && nf.forward_tag == fw.forward_tag && nf.cl@ == nm.cl@,
        _ => new.msg == old.msg,
    }
}

/// The record that the first forward of `msg_tag` creates at node `self_id`
/// whose SCD counter is `sn`.
pub open spec fn is_new_scd_record(
    r: BufferRecord,
    msg: String,
    msg_tag: Tag,
    forward_tag: Tag,
    self_id: NodeId,
    sn: Int,
    n: nat,
) -> bool {
    let cl = Seq::new(n, |_i: int| None::<Int>).update(forward_tag.id - 1, Some(forward_tag.seq)).update(
        self_id - 1,
        Some(sn),
    ).update(msg_tag.id - 1, Some(msg_tag.seq));
    &&& r.urb_tag.is_none()
    &&& !r.delivered
    &&& bits_of(r.recBy) == Seq::new(n, |i: int| i == self_id - 1)
    &&& bits_of(r.recBy_trusted) == Seq::new(n, |_i: int| false)
    &&& r.prevHB@ == Seq::new(n, |_i: int| None::<Int>)
    &&& r.urb_needed
    &&& r.scd_needed
    &&& r.meta matches Some(m) && m.tag == msg_tag && m.cl@ == cl && !m.delivered && m.txDes.is_none()
        && m.transmission_counter == 0
    &&& r.msg matches Some(Payload::Forward(fw)) && fw.msg == msg && fw.msg_tag == msg_tag
        && fw.forward_tag == (Tag { id: self_id, seq: sn }) && fw.cl@ == cl
}

/// An SCD record waiting for SCD delivery.
pub open spec fn scd_eligible(r: BufferRecord) -> bool {
    r.meta.is_some() && !r.meta.unwrap().delivered
}

/// `S` is a set of waiting, majority-aware records none of which is behind,
/// in more than half of the entries, a waiting record outside `S`: a set
/// that may be SCD-delivered together.
pub open spec fn is_safe_set(b: Seq<BufferRecord>, S: Set<int>, n: nat) -> bool {
    &&& forall|i: int| #[trigger] S.contains(i) ==> 0 <= i < b.len() && scd_eligible(b[i])
        && majority_aware_spec(rec_cl(b[i]), n)
    &&& forall|i: int, j: int| #[trigger] S.contains(i) && 0 <= j < b.len() && #[trigger] scd_eligible(b[j])
        && !S.contains(j) ==> !cannot_deliver_spec(rec_cl(b[i]), rec_cl(b[j]), n)
}

pub open spec fn rec_cl(r: BufferRecord) -> Seq<Option<Int>> {
    r.meta.unwrap().cl@
}

/// The application payload a record carries.
pub open spec fn payload_text(r: BufferRecord) -> Seq<char> {
    match r.msg {
        Some(Payload::Forward(fw)) => fw.msg@,
        Some(Payload::Text(t)) => t@,
        None => Seq::empty(),
    }
}

/// Everything but the buffer and the deliveries is as before.
pub open spec fn same_but_buffer_and_delivered(a: MergedNode, b: MergedNode) -> bool {
    &&& a.settings == b.settings
    &&& a.node_id == b.node_id
    &&& a.theta == b.theta
    &&& a.hbfd == b.hbfd
    &&& a.seq == b.seq
    &&& a.urb_rxObsS == b.urb_rxObsS
    &&& a.urb_txObsS == b.urb_txObsS
    &&& a.next_to_deliver == b.next_to_deliver
    &&& a.sn == b.sn
    &&& a.scd_rxObsS == b.scd_rxObsS
    &&& a.scd_txObsS == b.scd_txObsS
    &&& a.scd_rxSpace == b.scd_rxSpace
    &&& a.scd_txSpace == b.scd_txSpace
    &&& a.gossip_sent == b.gossip_sent
    &&& a.illegally_triggered_ss == b.illegally_triggered_ss
    &&& a.outbox == b.outbox
}

/// Number of counter increments among the first `k` messages.
pub open spec fn count_plus(msgs: Seq<String>, k: int) -> int
    decreases k,
{
    if k <= 0 {
        0
    } else {
        count_plus(msgs, k - 1) + if is_prefix("{\"PLUS\":".spec_bytes(), encode_utf8(msgs[k - 1]@)) { 1int } else { 0int }
    }
}

/// Number of counter decrements among the first `k` messages.
pub open spec fn count_minus(msgs: Seq<String>, k: int) -> int
    decreases k,
{
    if k <= 0 {
        0
    } else {
        count_minus(msgs, k - 1) + if is_prefix("{\"MINUS\":".spec_bytes(), encode_utf8(msgs[k - 1]@)) { 1int } else { 0int }
    }
}

/// Number of counter increments among the first `k` payload texts.
pub open spec fn count_plus_text(texts: Seq<Seq<char>>, k: int) -> int
    decreases k,
{
    if k <= 0 {
        0
    } else {
        count_plus_text(texts, k - 1) + if is_prefix("{\"PLUS\":".spec_bytes(), encode_utf8(texts[k - 1])) { 1int } else { 0int }
    }
}

/// Number of counter decrements among the first `k` payload texts.
pub open spec fn count_minus_text(texts: Seq<Seq<char>>, k: int) -> int
    decreases k,
{
    if k <= 0 {
        0
    } else {
        count_minus_text(texts, k - 1) + if is_prefix("{\"MINUS\":".spec_bytes(), encode_utf8(texts[k - 1])) { 1int } else { 0int }
    }
}

/// The payload texts of the records at positions `d`.
pub open spec fn texts_of(b: Seq<BufferRecord>, d: Seq<usize>) -> Seq<Seq<char>> {
    Seq::new(d.len(), |k: int| payload_text(b[d[k] as int]))
}

pub proof fn lemma_count_text(msgs: Seq<String>, texts: Seq<Seq<char>>, k: int)
    requires
        0 <= k <= msgs.len(),
        msgs.len() == texts.len(),
        forall|i: int| 0 <= i < msgs.len() ==> msgs[i]@ == texts[i],
    ensures
        count_plus(msgs, k) == count_plus_text(texts, k),
        count_minus(msgs, k) == count_minus_text(texts, k),
    decreases k,
{
    if k > 0 {
        lemma_count_text(msgs, texts, k - 1);
    }
}

pub proof fn lemma_counts_bounded(msgs: Seq<String>, k: int)
    requires
        0 <= k <= msgs.len(),
    ensures
        0 <= count_plus(msgs, k) <= k,
        0 <= count_minus(msgs, k) <= k,
    decreases k,
{
    if k > 0 {
        lemma_counts_bounded(msgs, k - 1);
    }
}

/// `v` clamped to the range of `i64`.
pub open spec fn clamp64(v: int) -> i64 {
    if v > i64::MAX {
        i64::MAX
    } else if v < i64::MIN {
        i64::MIN
    } else {
        v as i64
    }
}

/// `new` is `old` marked SCD-delivered.
pub open spec fn is_scd_delivered(old: BufferRecord, new: BufferRecord) -> bool {
    let om = old.meta.unwrap();
    let nm = new.meta.unwrap();
    &&& new.urb_tag == old.urb_tag
    &&& new.msg == old.msg
    &&& new.delivered == old.delivered
    &&& new.recBy == old.recBy
    &&& new.recBy_trusted == old.recBy_trusted
    &&& new.prevHB == old.prevHB
    &&& new.urb_needed == old.urb_needed
    &&& new.scd_needed == old.scd_needed
    &&& new.meta.is_some()
    &&& nm.tag == om.tag
    &&& nm.cl == om.cl
    &&& nm.delivered
    &&& nm.txDes == om.txDes
    &&& nm.transmission_counter == om.transmission_counter
}

pub open spec fn max_int(a: Int, b: Int) -> Int {
    if a >= b { a } else { b }
}

/// `scd_txSpace` of the sender after its summary.
pub open spec fn tx_space_after(cur: Option<Int>, g: SCDGOSSIP) -> Option<Int> {
    if g.scd_rxSpace.is_some() && cur.is_some() {
        Some(max_int(cur.unwrap(), g.scd_rxSpace.unwrap()))
    } else if cur.is_none() || g.scd_rxObsS >= cur.unwrap() {
        g.scd_rxSpace
    } else {
        cur
    }
}

/// `scd_rxSpace` of the sender after its summary.
pub open spec fn rx_space_after(cur: Option<Int>, g: SCDGOSSIP) -> Option<Int> {
    if g.scd_txSpace.is_some() && cur.is_some() {
        Some(max_int(cur.unwrap(), g.scd_txSpace.unwrap()))
    } else if cur.is_none() || g.scd_txObsS >= cur.unwrap() {
        g.scd_txSpace
    } else {
        cur
    }
}

impl MergedNode {
    pub open spec fn scd_saved_count(&self, id: NodeId) -> nat {
        saved_set(self.buffer@, id).len()
    }

    /// Room for one more local SCD broadcast.
    pub open spec fn scd_space(&self) -> bool {
        self.scd_saved_count(self.node_id) < self.settings.window_size
    }

    /// Room for `k` more local SCD broadcasts.
    pub open spec fn scd_space_for(&self, k: Int) -> bool {
        self.scd_saved_count(self.node_id) + k <= self.settings.window_size
    }

    pub open spec fn scd_max_seq(&self, id: NodeId) -> Int {
        max_int(scd_max_of(self.buffer@, id, self.buffer@.len() as int), self.scd_rxObsS@[id - 1])
    }

    pub open spec fn min_scd_tx(&self) -> Int {
        min_trusted(self.scd_txObsS@, self.trusted_view(), self.n() as int)
    }

    pub open spec fn scd_msp_spec(&self) -> Option<Int> {
        min_space(self.scd_txSpace@, self.trusted_view(), self.node_id, self.n() as int)
    }

    pub open spec fn scd_ms_spec(&self, id: NodeId) -> Int {
        if id == self.node_id {
            self.min_scd_tx()
        } else if self.trusted_view()[id - 1] {
            self.scd_rxObsS@[id - 1]
        } else {
            0
        }
    }

    /// The distinct sequence numbers of sender `node_id` that SCD records
    /// still hold.
    pub fn saved(&self, node_id: NodeId) -> (r: Vec<Int>)
        requires
            self.wf(),
            1 <= node_id <= self.n(),
        ensures
            r@.no_duplicates(),
            r@.to_set() == saved_set(self.buffer@, node_id),
            r@.len() == self.scd_saved_count(node_id),
    {
        let mut r: Vec<Int> = Vec::new();
        let mut i: usize = 0;
        while i < self.buffer.len()
            invariant
                self.wf(),
                1 <= node_id <= self.n(),
                i <= self.buffer@.len(),
                r@.no_duplicates(),
                forall|v: Int| r@.contains(v) <==> in_saved(self.buffer@.take(i as int), node_id, v),
            decreases self.buffer@.len() - i,
        {
            let ghost pre = self.buffer@.take(i as int);
            let ghost post = self.buffer@.take(i + 1);
            assert(self.buffer@[i as int].wf(self.n()));
            let ghost r0 = r@;
            assert(forall|v: Int| r0.contains(v) <==> in_saved(pre, node_id, v));
            let ghost rec = self.buffer@[i as int];
            let ghost hit = rec.meta.is_some() && rec.meta.unwrap().tag.id == node_id
                && rec.meta.unwrap().cl@[node_id - 1].is_some();
            match &self.buffer[i].meta {
                Some(m) => {
                    if m.tag.id == node_id {
                        match m.cl.get(node_id) {
                            Some(v) => {
                                let mut found = false;
                                let mut k: usize = 0;
                                while k < r.len()
                                    invariant
                                        k <= r@.len(),
                                        found <==> exists|q: int| 0 <= q < k && r@[q] == v,
                                    decreases r@.len() - k,
                                {
                                    if r[k] == v {
                                        found = true;
                                    }
                                    k = k + 1;
                                }
                                if !found {
                                    r.push(v);
                                }
                            },
                            None => {},
                        }
                    }
                },
                None => {},
            }
            proof {
                assert(post.len() == i + 1);
                assert(post[i as int] == rec);
                assert forall|v: Int| r@.contains(v) <==> (r0.contains(v) || (hit
                    && rec.meta.unwrap().cl@[node_id - 1] == Some(v))) by {
                    if hit && rec.meta.unwrap().cl@[node_id - 1] == Some(v) && r@ != r0 {
                        assert(r@.last() == v);
                    }
                    if r0.contains(v) && r@ != r0 {
                        let q = choose|q: int| 0 <= q < r0.len() && r0[q] == v;
                        assert(r@[q] == v);
                    }
                }
                assert forall|v: Int| in_saved(post, node_id, v) implies r@.contains(v) by {
                    if in_saved(post, node_id, v) {
                        let j = choose|j: int|
                            0 <= j < post.len() && (#[trigger] post[j]).meta.is_some() && post[j].meta.unwrap().tag.id == node_id
                                && post[j].meta.unwrap().cl@[node_id - 1] == Some(v);
                        if j < i {
                            assert(pre[j] == post[j]);
                            assert(in_saved(pre, node_id, v));
                            assert(r0.contains(v));
                        } else {
                            assert(j == i);
                            assert(hit && rec.meta.unwrap().cl@[node_id - 1] == Some(v));
                        }
                    }
                }
                assert forall|v: Int| r@.contains(v) implies in_saved(post, node_id, v) by {
                    if r@.contains(v) {
                        if r0.contains(v) {
                            assert(in_saved(pre, node_id, v));
                            let j = choose|j: int|
                                0 <= j < pre.len() && (#[trigger] pre[j]).meta.is_some() && pre[j].meta.unwrap().tag.id == node_id
                                    && pre[j].meta.unwrap().cl@[node_id - 1] == Some(v);
                            assert(pre[j] == post[j]);
                        } else {
                            assert(post[i as int].meta.is_some());
                        }
                    }
                }
            }
            i = i + 1;
        }
        proof {
            assert(self.buffer@.take(self.buffer@.len() as int) == self.buffer@);
            assert(r@.to_set() =~= saved_set(self.buffer@, node_id));
            r@.unique_seq_to_set();
        }
        r
    }
    /// Largest sequence number of node `node_id` in the SCD clocks held,
    /// or observed as obsolete.
    pub fn scd_maxSeq(&self, node_id: NodeId) -> (r: Int)
        requires
            self.wf(),
            1 <= node_id <= self.n(),
        ensures
            r == self.scd_max_seq(node_id),
    {
        let mut max_seq: Int = 0;
        let mut i: usize = 0;
        while i < self.buffer.len()
            invariant
                self.wf(),
                1 <= node_id <= self.n(),
                i <= self.buffer@.len(),
                max_seq == scd_max_of(self.buffer@, node_id, i as int),
            decreases self.buffer@.len() - i,
        {
            assert(self.buffer@[i as int].wf(self.n()));
            match &self.buffer[i].meta {
                Some(m) => match m.cl.get(node_id) {
                    Some(v) => {
                        if v > max_seq {
                            max_seq = v;
                        }
                    },
                    None => {},
                },
                None => {},
            }
            i = i + 1;
        }
        let rx = self.scd_rxObsS[node_id - 1];
        if max_seq >= rx { max_seq } else { rx }
    }

    /// Smallest `scd_txObsS` entry over the trusted nodes.
    pub fn min_scd_TxObsS(&self) -> (r: Int)
        requires
            self.wf(),
        ensures
            r == self.min_scd_tx(),
    {
        let n = self.settings.number_of_nodes;
        let mut min_s: Int = Int::MAX;
        let mut i: usize = 0;
        while i < n
            invariant
                self.wf(),
                n == self.n(),
                i <= n,
                min_s == min_trusted(self.scd_txObsS@, self.trusted_view(), i as int),
            decreases n - i,
        {
            if bits_get(&self.theta.current_trusted, i) == Some(true) && self.scd_txObsS[i] < min_s {
                min_s = self.scd_txObsS[i];
            }
            i = i + 1;
        }
        min_s
    }

    /// Smallest space hint reported by a trusted peer, if any reported one.
    pub fn scd_msp(&self) -> (r: Option<Int>)
        requires
            self.wf(),
        ensures
            r == self.scd_msp_spec(),
    {
        let n = self.settings.number_of_nodes;
        let mut m: Option<Int> = None;
        let mut i: usize = 0;
        while i < n
            invariant
                self.wf(),
                n == self.n(),
                i <= n,
                m == min_space(self.scd_txSpace@, self.trusted_view(), self.node_id, i as int),
            decreases n - i,
        {
            if bits_get(&self.theta.current_trusted, i) == Some(true) && i + 1 != self.node_id {
                match self.scd_txSpace[i] {
                    Some(x) => {
                        m = match m {
                            Some(y) => if x < y { Some(x) } else { Some(y) },
                            None => Some(x),
                        };
                    },
                    None => {},
                }
            }
            i = i + 1;
        }
        m
    }

    /// Sequence number up to which node `node_id`'s SCD messages are
    /// obsolete here: for itself the trusted minimum of `scd_txObsS`, for a
    /// trusted peer its `scd_rxObsS`, and 0 for an untrusted one.
    pub fn scd_ms(&self, node_id: NodeId) -> (r: Int)
        requires
            self.wf(),
            1 <= node_id <= self.n(),
        ensures
            r == self.scd_ms_spec(node_id),
    {
        if node_id == self.node_id {
            self.min_scd_TxObsS()
        } else if bits_get(&self.theta.current_trusted, node_id - 1) == Some(true) {
            self.scd_rxObsS[node_id - 1]
        } else {
            0
        }
    }

    /// Room for one more local SCD broadcast within the SCD window.
    pub fn scd_available_space(&self) -> (r: bool)
        requires
            self.wf(),
        ensures
            r == self.scd_space(),
    {
        let saved = self.saved(self.node_id);
        (saved.len() as Int) < self.scd_buffer_unit_size()
    }

    /// Room for `msgs` more local SCD broadcasts within the SCD window.
    pub fn scd_available_space_for(&self, msgs: Int) -> (r: bool)
        requires
            self.wf(),
        ensures
            r == self.scd_space_for(msgs),
    {
        let saved = self.saved(self.node_id);
        (saved.len() as u128) + (msgs as u128) <= self.scd_buffer_unit_size() as u128
    }

    /// Merges a peer's SCD progress summary: the sequence counter and the
    /// sender's entries of the progress vectors only ever grow; the space
    /// hints take the larger value, or the peer's when it moved past ours.
    /// A summary from an unknown node is dropped.
    pub fn SCDGOSSIP_received(&mut self, gossip: SCDGOSSIP)
        requires
            old(self).wf(),
        ensures
            scd_gossip_post(*old(self), *final(self), gossip),
            final(self).wf(),
            final(self).buffer == old(self).buffer,
            final(self).seq == old(self).seq,
            final(self).urb_rxObsS == old(self).urb_rxObsS,
            final(self).urb_txObsS == old(self).urb_txObsS,
            final(self).next_to_deliver == old(self).next_to_deliver,
            final(self).theta == old(self).theta,
            final(self).settings == old(self).settings,
            final(self).delivered == old(self).delivered,
            final(self).gossip_sent == old(self).gossip_sent,
            final(self).hbfd == old(self).hbfd,
            final(self).illegally_triggered_ss == old(self).illegally_triggered_ss,
            final(self).outbox == old(self).outbox,
            1 <= gossip.sender <= old(self).n() ==> {
                let k = gossip.sender - 1;
                &&& final(self).sn == max_int(old(self).sn, gossip.scd_maxSeq)
                &&& final(self).scd_rxObsS@ == old(self).scd_rxObsS@.update(k, max_int(old(self).scd_rxObsS@[k], gossip.scd_txObsS))
                &&& final(self).scd_txObsS@ == old(self).scd_txObsS@.update(k, max_int(old(self).scd_txObsS@[k], gossip.scd_rxObsS))
                &&& final(self).scd_txSpace@ == old(self).scd_txSpace@.update(k, tx_space_after(old(self).scd_txSpace@[k], gossip))
                &&& final(self).scd_rxSpace@ == old(self).scd_rxSpace@.update(k, rx_space_after(old(self).scd_rxSpace@[k], gossip))
            },
            !(1 <= gossip.sender <= old(self).n()) ==> *final(self) == *old(self),
    {
        if !(1 <= gossip.sender && gossip.sender <= self.settings.number_of_nodes) {
            return;
        }
        let k = gossip.sender - 1;
        if gossip.scd_maxSeq > self.sn {
            self.sn = gossip.scd_maxSeq;
        }
        let rx = self.scd_rxObsS[k];
        if gossip.scd_txObsS > rx {
            self.scd_rxObsS.set(k, gossip.scd_txObsS);
        }
        let tx = self.scd_txObsS[k];
        if gossip.scd_rxObsS > tx {
            self.scd_txObsS.set(k, gossip.scd_rxObsS);
        }
        let txs = self.scd_txSpace[k];
        let new_txs = match (gossip.scd_rxSpace, txs) {
            (Some(g), Some(c)) => Some(if c >= g { c } else { g }),
            (_, None) => gossip.scd_rxSpace,
            (None, Some(c)) => if gossip.scd_rxObsS >= c { gossip.scd_rxSpace } else { txs },
        };
        self.scd_txSpace.set(k, new_txs);
        let rxs = self.scd_rxSpace[k];
        let new_rxs = match (gossip.scd_txSpace, rxs) {
            (Some(g), Some(c)) => Some(if c >= g { c } else { g }),
            (_, None) => gossip.scd_txSpace,
            (None, Some(c)) => if gossip.scd_txObsS >= c { gossip.scd_txSpace } else { rxs },
        };
        self.scd_rxSpace.set(k, new_rxs);
        proof {
            assert(self.scd_rxObsS@ =~= old(self).scd_rxObsS@.update(k as int, max_int(old(self).scd_rxObsS@[k as int], gossip.scd_txObsS)));
            assert(self.scd_txObsS@ =~= old(self).scd_txObsS@.update(k as int, max_int(old(self).scd_txObsS@[k as int], gossip.scd_rxObsS)));
        }
    }

    /// Whether the SCD message `txDes` (sender and its own clock entry), if
    /// held, is SCD-delivered.
    pub fn scd_has_terminated(&self, txDes: &Tag) -> (r: bool)
        requires
            self.wf(),
            1 <= txDes.id <= self.n(),
        ensures
            r == (forall|j: int|
                0 <= j < self.buffer@.len() && (#[trigger] self.buffer@[j]).meta.is_some()
                    && self.buffer@[j].meta.unwrap().tag.id == txDes.id
                    && self.buffer@[j].meta.unwrap().cl@[txDes.id - 1] == Some(txDes.seq)
                    && (forall|q: int| 0 <= q < j ==> !(self.buffer@[q].meta.is_some()
                        && self.buffer@[q].meta.unwrap().tag.id == txDes.id
                        && self.buffer@[q].meta.unwrap().cl@[txDes.id - 1] == Some(txDes.seq)))
                    ==> self.buffer@[j].meta.unwrap().delivered),
    {
        let mut i: usize = 0;
        while i < self.buffer.len()
            invariant
                self.wf(),
                1 <= txDes.id <= self.n(),
                i <= self.buffer@.len(),
                forall|q: int| 0 <= q < i ==> !(self.buffer@[q].meta.is_some()
                    && self.buffer@[q].meta.unwrap().tag.id == txDes.id
                    && self.buffer@[q].meta.unwrap().cl@[txDes.id - 1] == Some(txDes.seq)),
            decreases self.buffer@.len() - i,
        {
            assert(self.buffer@[i as int].wf(self.n()));
            match &self.buffer[i].meta {
                Some(m) => {
                    if m.tag.id == txDes.id && m.cl.get(txDes.id) == Some(txDes.seq) {
                        return m.delivered;
                    }
                },
                None => {},
            }
            i = i + 1;
        }
        true
    }

    /// Whether every record is URB-delivered.
    pub fn scd_all_have_terminated(&self) -> (r: bool)
        ensures
            r == (forall|j: int| 0 <= j < self.buffer@.len() ==> (#[trigger] self.buffer@[j]).delivered),
    {
        let mut i: usize = 0;
        while i < self.buffer.len()
            invariant
                i <= self.buffer@.len(),
                forall|j: int| 0 <= j < i ==> (#[trigger] self.buffer@[j]).delivered,
            decreases self.buffer@.len() - i,
        {
            if !self.buffer[i].delivered {
                return false;
            }
            i = i + 1;
        }
        true
    }
    /// Position of the first record holding the SCD message `scd_tag`.
    pub fn get_urb_index(&self, scd_tag: &Tag) -> (r: Option<usize>)
        requires
            self.wf(),
            1 <= scd_tag.id <= self.n(),
        ensures
            r.is_none() <==> find_scd(self.buffer@, *scd_tag).is_none(),
            r matches Some(i) ==> find_scd(self.buffer@, *scd_tag) == Some(i as int),
            r matches Some(i) ==> i < self.buffer@.len() && scd_match(self.buffer@[i as int], *scd_tag)
                && forall|j: int| 0 <= j < i ==> !scd_match(self.buffer@[j], *scd_tag),
    {
        let mut i: usize = 0;
        while i < self.buffer.len()
            invariant
                self.wf(),
                1 <= scd_tag.id <= self.n(),
                i <= self.buffer@.len(),
                forall|j: int| 0 <= j < i ==> !scd_match(self.buffer@[j], *scd_tag),
            decreases self.buffer@.len() - i,
        {
            assert(self.buffer@[i as int].wf(self.n()));
            match &self.buffer[i].meta {
                Some(m) => {
                    if m.tag.id == scd_tag.id && m.cl.get(scd_tag.id) == Some(scd_tag.seq) {
                        proof {
                            let b = self.buffer@;
                            let t = *scd_tag;
                            assert(scd_match(b[i as int], t));
                            let c = find_scd(b, t).unwrap();
                            if c > i {
                                assert(scd_match(b[i as int], t));
                            }
                        }
                        return Some(i);
                    }
                },
                None => {},
            }
            i = i + 1;
        }
        None
    }

    /// Takes the SCD message `msg_tag`, relayed with `forward_tag` and the
    /// relayer's clock `cl`. A message held already has the clock merged in
    /// (`None`). A new one above `scd_rxObsS` of its sender gets a record and
    /// the next local SCD number, which is returned. Any other is stale: the
    /// relayer's `scd_rxObsS` entry rises to `forward_tag.seq` (`None`).
    pub fn forward(&mut self, msg: String, msg_tag: Tag, forward_tag: Tag, cl: Option<VectorClock>) -> (r: Option<Tag>)
        requires
            old(self).wf(),
            1 <= msg_tag.id <= old(self).n(),
            1 <= forward_tag.id <= old(self).n(),
            cl matches Some(c) ==> c@.len() == old(self).n(),
        ensures
            forward_post(*old(self), *final(self), msg, msg_tag, forward_tag, cl, r),
            final(self).wf(),
            final(self).seq == old(self).seq,
            final(self).urb_rxObsS == old(self).urb_rxObsS,
            final(self).urb_txObsS == old(self).urb_txObsS,
            final(self).next_to_deliver == old(self).next_to_deliver,
            final(self).theta == old(self).theta,
            final(self).settings == old(self).settings,
            final(self).outbox == old(self).outbox,
            final(self).delivered == old(self).delivered,
            find_scd(old(self).buffer@, msg_tag) matches Some(i) ==> r.is_none()
                && same_but_buffer(*old(self), *final(self))
                && final(self).buffer@.len() == old(self).buffer@.len()
                && (forall|j: int| 0 <= j < old(self).buffer@.len() && j != i ==> final(self).buffer@[j] == old(self).buffer@[j])
                && is_forward_merged(old(self).buffer@[i], final(self).buffer@[i], forward_tag, opt_clock(cl)),
            find_scd(old(self).buffer@, msg_tag).is_none() && msg_tag.seq > old(self).scd_rxObsS@[msg_tag.id - 1]
                && old(self).sn < Int::MAX ==> r == Some(Tag { id: old(self).node_id, seq: old(self).sn })
                && final(self).sn == old(self).sn + 1
                && final(self).scd_rxObsS == old(self).scd_rxObsS
                && final(self).buffer@.drop_last() == old(self).buffer@
                && final(self).buffer@.len() == old(self).buffer@.len() + 1
                && is_new_scd_record(final(self).buffer@.last(), msg, msg_tag, forward_tag, old(self).node_id,
                    old(self).sn, old(self).n()),
            find_scd(old(self).buffer@, msg_tag).is_none() && msg_tag.seq > old(self).scd_rxObsS@[msg_tag.id - 1]
                && old(self).sn == Int::MAX ==> r.is_none() && *final(self) == *old(self),
            find_scd(old(self).buffer@, msg_tag).is_none() && msg_tag.seq <= old(self).scd_rxObsS@[msg_tag.id - 1]
                ==> r.is_none() && final(self).buffer == old(self).buffer && final(self).sn == old(self).sn
                && final(self).scd_rxObsS@ == old(self).scd_rxObsS@.update(forward_tag.id - 1,
                    max_int(old(self).scd_rxObsS@[forward_tag.id - 1], forward_tag.seq)),
    {
        let n = self.settings.number_of_nodes;
        match self.get_urb_index(&msg_tag) {
            Some(i) => {
                let ghost r0 = self.buffer@[i as int];
                assert(r0.wf(self.n()));
                let mut merged: Option<VectorClock> = None;
                match &mut self.buffer[i].meta {
                    Some(m) => {
                        m.cl.merge(forward_tag, &cl);
                        merged = Some(m.cl.copied());
                    },
                    None => {},
                }
                match merged {
                    Some(c) => {
                        match &mut self.buffer[i].msg {
                            Some(Payload::Forward(f)) => {
                                f.cl = c;
                            },
                            _ => {},
                        }
                    },
                    None => {},
                }
                proof {
                    assert forall|j: int| 0 <= j < self.buffer@.len() implies #[trigger] self.buffer@[j].wf(self.n()) by {
                        if j != i {
                            assert(self.buffer@[j] == old(self).buffer@[j]);
                        }
                    }
                }
                None
            },
            None => {
                if msg_tag.seq > self.scd_rxObsS[msg_tag.id - 1] {
                    if self.sn == Int::MAX {
                        return None;
                    }
                    let mut threshold = VectorClock::new(n, None);
                    threshold.set(forward_tag.id, Some(forward_tag.seq));
                    threshold.set(self.node_id, Some(self.sn));
                    threshold.set(msg_tag.id, Some(msg_tag.seq));
                    let meta = SCDMETA {
                        tag: msg_tag,
                        cl: threshold.copied(),
                        delivered: false,
                        txDes: None,
                        transmission_counter: 0,
                    };
                    let forward_msg = FORWARD {
                        msg,
                        msg_tag,
                        forward_tag: Tag { id: self.node_id, seq: self.sn },
                        cl: threshold,
                    };
                    let mut recBy = bits_filled(n, false);
                    bits_set(&mut recBy, self.node_id - 1, true);
                    proof {
                        assert(bits_of(recBy) =~= Seq::new(n as nat, |i: int| i == self.node_id - 1));
                    }
                    let record = BufferRecord {
                        urb_tag: None,
                        msg: Some(Payload::Forward(forward_msg)),
                        delivered: false,
                        recBy,
                        recBy_trusted: bits_filled(n, false),
                        prevHB: filled_opt(n),
                        urb_needed: true,
                        scd_needed: true,
                        meta: Some(meta),
                    };
                    self.buffer.push(record);
                    let t = Tag { id: self.node_id, seq: self.sn };
                    self.sn = self.sn + 1;
                    proof {
                        assert(self.buffer@.drop_last() =~= old(self).buffer@);
                        assert forall|j: int| 0 <= j < self.buffer@.len() implies #[trigger] self.buffer@[j].wf(self.n()) by {
                            if j < old(self).buffer@.len() {
                                assert(self.buffer@[j] == old(self).buffer@[j]);
                            }
                        }
                    }
                    Some(t)
                } else {
                    let k = forward_tag.id - 1;
                    let v = self.scd_rxObsS[k];
                    if forward_tag.seq > v {
                        self.scd_rxObsS.set(k, forward_tag.seq);
                    }
                    proof {
                        assert(self.scd_rxObsS@ =~= old(self).scd_rxObsS@.update(forward_tag.id - 1,
                            max_int(old(self).scd_rxObsS@[forward_tag.id - 1], forward_tag.seq)));
                    }
                    None
                }
            },
        }
    }
    /// SCD-broadcasts `msg` under the next local SCD number, or reports
    /// `ErrNoSpace` at once when this node's SCD window is full; a refused
    /// message is not kept.
    pub fn scd_broadcast(&mut self, msg: String) -> (r: (StatusCode, Option<Tag>))
        requires
            old(self).wf(),
        ensures
            final(self).wf(),
            r.0 == StatusCode::ErrNoSpace || r.0 == StatusCode::OK,
            r.0 == StatusCode::ErrNoSpace <==> !old(self).scd_space(),
            r.0 == StatusCode::ErrNoSpace ==> r.1.is_none() && *final(self) == *old(self),
            r.0 == StatusCode::OK ==> final(self).scd_saved_count(final(self).node_id) <= final(self).settings.window_size,
            ({
                let t = Tag { id: old(self).node_id, seq: old(self).sn };
                r.0 == StatusCode::OK && find_scd(old(self).buffer@, t).is_none()
                    && t.seq > old(self).scd_rxObsS@[t.id - 1] && old(self).sn < Int::MAX
                    ==> r.1 == Some(t) && final(self).sn == old(self).sn + 1
                    && final(self).buffer@.drop_last() == old(self).buffer@
                    && is_new_scd_record(final(self).buffer@.last(), msg, t, t, old(self).node_id,
                        old(self).sn, old(self).n())
            }),
    {
        if !self.scd_available_space() {
            return (StatusCode::ErrNoSpace, None);
        }
        let sv = self.saved(self.node_id);
        let t = Tag { id: self.node_id, seq: self.sn };
        let held = self.get_urb_index(&t);
        let r = self.forward(msg, t, t, None);
        proof {
            let id = old(self).node_id;
            let before = saved_set(old(self).buffer@, id);
            let after = saved_set(self.buffer@, id);
            vstd::seq_lib::seq_to_set_is_finite(sv@);
            assert(before.finite());
            assert forall|v: Int| after.contains(v) implies before.insert(old(self).sn).contains(v) by {
                let b = self.buffer@;
                let j = choose|j: int|
                    0 <= j < b.len() && (#[trigger] b[j]).meta.is_some() && b[j].meta.unwrap().tag.id == id
                        && b[j].meta.unwrap().cl@[id - 1] == Some(v);
                match held {
                    Some(i0) => {
                        let i = i0 as int;
                        if j != i {
                            assert(b[j] == old(self).buffer@[j]);
                            assert(in_saved(old(self).buffer@, id, v));
                        } else {
                            assert(old(self).buffer@[i].wf(old(self).n()));
                            let om = old(self).buffer@[i].meta.unwrap();
                            assert(b[j].meta.unwrap().cl@ == merge_clock(om.cl@, t, None));
                            assert(om.cl@[id - 1] == Some(t.seq));
                            assert(merge_clock(om.cl@, t, None)[id - 1] == Some(t.seq));
                            assert(v == old(self).sn);
                        }
                    },
                    None => {
                        if t.seq > old(self).scd_rxObsS@[t.id - 1] && old(self).sn < Int::MAX {
                            if j < old(self).buffer@.len() {
                                assert(b.drop_last()[j] == b[j]);
                                assert(b[j] == old(self).buffer@[j]);
                                assert(in_saved(old(self).buffer@, id, v));
                            } else {
                                assert(b[j] == b.last());
                                assert(v == old(self).sn);
                            }
                        } else {
                            assert(b[j] == old(self).buffer@[j]);
                            assert(in_saved(old(self).buffer@, id, v));
                        }
                    },
                }
            }
            vstd::set_lib::lemma_len_subset(after, before.insert(old(self).sn));
        }
        (StatusCode::OK, r)
    }

    /// SCD delivery: among the records waiting for it, those whose clock is
    /// known in a majority of entries are candidates; a candidate that is
    /// not ahead of some waiting non-candidate in more than half of the
    /// entries becomes a non-candidate, until no such pair is left. The
    /// remaining candidates are marked SCD-delivered and their payloads
    /// handed to the application as one batch. Returns their positions.
    pub fn try_deliver(&mut self) -> (d: Vec<usize>)
        requires
            old(self).wf(),
        ensures
            old(self).delivered@.is_prefix_of(final(self).delivered@),
            final(self).wf(),
            same_but_buffer_and_delivered(*old(self), *final(self)),
            final(self).buffer@.len() == old(self).buffer@.len(),
            d@.no_duplicates(),
            forall|k: int| 0 <= k < d@.len() ==> {
                let x = #[trigger] d@[k];
                &&& x < old(self).buffer@.len()
                &&& scd_eligible(old(self).buffer@[x as int])
                &&& majority_aware_spec(rec_cl(old(self).buffer@[x as int]), old(self).n())
                &&& forall|j: int| 0 <= j < old(self).buffer@.len() && scd_eligible(old(self).buffer@[j])
                    && !d@.contains(j as usize) ==> !cannot_deliver_spec(rec_cl(old(self).buffer@[x as int]),
                    rec_cl(old(self).buffer@[j]), old(self).n())
            },
            forall|S: Set<int>| #[trigger] is_safe_set(old(self).buffer@, S, old(self).n())
                ==> forall|i: int| S.contains(i) ==> d@.contains(i as usize),
            forall|j: int| 0 <= j < old(self).buffer@.len() ==> if d@.contains(j as usize) {
                is_scd_delivered(old(self).buffer@[j], #[trigger] final(self).buffer@[j])
            } else {
                final(self).buffer@[j] == old(self).buffer@[j]
            },
            d@.len() == 0 || old(self).settings.variant == Variant::COUNTER ==> final(self).delivered == old(self).delivered,
            d@.len() == 0 || old(self).settings.variant != Variant::COUNTER ==> final(self).counter == old(self).counter,
            d@.len() > 0 && old(self).settings.variant == Variant::COUNTER ==> final(self).counter == clamp64(
                old(self).counter + count_plus_text(texts_of(old(self).buffer@, d@), d@.len() as int)
                - count_minus_text(texts_of(old(self).buffer@, d@), d@.len() as int)),
            d@.len() > 0 && old(self).settings.variant != Variant::COUNTER ==> final(self).delivered@.len() == old(self).delivered@.len() + 1
                && final(self).delivered@.drop_last() == old(self).delivered@
                && (final(self).delivered@.last() matches Delivery::Scd(msgs)
                && msgs@.len() == d@.len()
                && forall|k: int| 0 <= k < d@.len() ==> (#[trigger] msgs@[k])@ == payload_text(old(self).buffer@[d@[k] as int])),
    {
        let n = self.settings.number_of_nodes;
        let len = self.buffer.len();
        let ghost b = self.buffer@;
        let ghost nn = self.n();
        let mut td: Vec<usize> = Vec::new();
        let mut ex: Vec<usize> = Vec::new();
        let mut i: usize = 0;
        while i < len
            invariant
                self.wf(),
                self.buffer@ == b,
                nn == self.n(),
                len == b.len(),
                n == nn,
                i <= len,
                td@.no_duplicates(),
                forall|k: int| 0 <= k < td@.len() ==> td@[k] < i && scd_eligible(b[td@[k] as int])
                    && majority_aware_spec(rec_cl(b[td@[k] as int]), nn),
                forall|k: int| 0 <= k < ex@.len() ==> ex@[k] < i && scd_eligible(b[ex@[k] as int])
                    && !majority_aware_spec(rec_cl(b[ex@[k] as int]), nn),
                forall|j: int| 0 <= j < i && scd_eligible(b[j]) ==> td@.contains(j as usize) || ex@.contains(j as usize),
            decreases len - i,
        {
            assert(b[i as int].wf(nn));
            let ghost td0 = td@;
            let ghost ex0 = ex@;
            match &self.buffer[i].meta {
                Some(m) => {
                    if !m.delivered {
                        if majority_aware(&m.cl, n) {
                            td.push(i);
                        } else {
                            ex.push(i);
                        }
                    }
                },
                None => {},
            }
            proof {
                assert(td@ == td0 || td@ == td0.push(i));
                assert(ex@ == ex0 || ex@ == ex0.push(i));
                assert(scd_eligible(b[i as int]) ==> td@ == td0.push(i) || ex@ == ex0.push(i));
                assert forall|j: int| 0 <= j < i + 1 && scd_eligible(b[j]) implies td@.contains(j as usize) || ex@.contains(j as usize) by {
                    if j < i {
                        if td0.contains(j as usize) {
                            let k = choose|k: int| 0 <= k < td0.len() && td0[k] == j as usize;
                            assert(td@[k] == j as usize);
                        } else {
                            let k = choose|k: int| 0 <= k < ex0.len() && ex0[k] == j as usize;
                            assert(ex@[k] == j as usize);
                        }
                    } else {
                        if td@ == td0.push(i) {
                            assert(td@[td0.len() as int] == i);
                        } else {
                            assert(ex@[ex0.len() as int] == i);
                        }
                    }
                }
            }
            i = i + 1;
        }
        proof {
            assert forall|k: int| 0 <= k < td@.len() implies !ex@.contains(#[trigger] td@[k]) by {
                if ex@.contains(td@[k]) {
                    let q = choose|q: int| 0 <= q < ex@.len() && ex@[q] == td@[k];
                    assert(!majority_aware_spec(rec_cl(b[ex@[q] as int]), nn));
                }
            }
        }
        // Move candidates that may not go before an excluded message.
        let mut changed = true;
        while changed
            invariant
                self.wf(),
                self.buffer@ == b,
                nn == self.n(),
                len == b.len(),
                n == nn,
                td@.no_duplicates(),
                forall|k: int| 0 <= k < td@.len() ==> td@[k] < len && scd_eligible(b[td@[k] as int])
                    && majority_aware_spec(rec_cl(b[td@[k] as int]), nn),
                forall|k: int| 0 <= k < ex@.len() ==> ex@[k] < len && scd_eligible(b[ex@[k] as int]),
                forall|k: int| 0 <= k < td@.len() ==> !ex@.contains(#[trigger] td@[k]),
                forall|j: int| 0 <= j < len && scd_eligible(b[j]) ==> td@.contains(j as usize) || ex@.contains(j as usize),
                forall|S: Set<int>| #[trigger] is_safe_set(b, S, nn) ==> forall|k: int| 0 <= k < ex@.len() ==> !S.contains(#[trigger] ex@[k] as int),
                !changed ==> forall|k: int, q: int| 0 <= k < td@.len() && 0 <= q < ex@.len()
                    ==> !cannot_deliver_spec(rec_cl(b[td@[k] as int]), rec_cl(b[ex@[q] as int]), nn),
            decreases td@.len() + if changed { 1int } else { 0int },
        {
            changed = false;
            let mut found: Option<(usize, usize)> = None;
            let mut p: usize = 0;
            while p < td.len() && found.is_none()
                invariant
                    self.wf(),
                    self.buffer@ == b,
                    nn == self.n(),
                    n == nn,
                    len == b.len(),
                    p <= td@.len(),
                    forall|k: int| 0 <= k < td@.len() ==> td@[k] < len && scd_eligible(b[td@[k] as int]),
                    forall|k: int| 0 <= k < ex@.len() ==> ex@[k] < len && scd_eligible(b[ex@[k] as int]),
                    found matches Some((fp, fq)) ==> fp < td@.len() && fq < ex@.len()
                        && cannot_deliver_spec(rec_cl(b[td@[fp as int] as int]), rec_cl(b[ex@[fq as int] as int]), nn),
                    found.is_none() ==> forall|k: int, q: int| 0 <= k < p && 0 <= q < ex@.len()
                        ==> !cannot_deliver_spec(rec_cl(b[td@[k] as int]), rec_cl(b[ex@[q] as int]), nn),
                decreases td@.len() - p + if found.is_none() { 1int } else { 0int },
            {
                let a = td[p];
                assert(b[a as int].wf(nn));
                let mut q: usize = 0;
                while q < ex.len() && found.is_none()
                    invariant
                        self.wf(),
                        self.buffer@ == b,
                        nn == self.n(),
                        n == nn,
                        len == b.len(),
                        p < td@.len(),
                        a == td@[p as int],
                        a < len,
                        scd_eligible(b[a as int]),
                        b[a as int].wf(nn),
                        q <= ex@.len(),
                        forall|k: int| 0 <= k < ex@.len() ==> ex@[k] < len && scd_eligible(b[ex@[k] as int]),
                        found matches Some((fp, fq)) ==> fp < td@.len() && fq < ex@.len()
                            && cannot_deliver_spec(rec_cl(b[td@[fp as int] as int]), rec_cl(b[ex@[fq as int] as int]), nn),
                        found.is_none() ==> forall|k: int| 0 <= k < q
                            ==> !cannot_deliver_spec(rec_cl(b[a as int]), rec_cl(b[ex@[k] as int]), nn),
                    decreases ex@.len() - q + if found.is_none() { 1int } else { 0int },
                {
                    let e = ex[q];
                    assert(b[e as int].wf(nn));
                    let blocked = match (&self.buffer[a].meta, &self.buffer[e].meta) {
                        (Some(ma), Some(me)) => cannot_deliver(&ma.cl, &me.cl, n),
                        _ => false,
                    };
                    if blocked {
                        found = Some((p, q));
                    } else {
                        q = q + 1;
                    }
                }
                if found.is_none() {
                    p = p + 1;
                }
            }
            match found {
                Some((fp, fq)) => {
                    let ghost td0 = td@;
                    let ghost ex0 = ex@;
                    let x = td.remove(fp);
                    ex.push(x);
                    changed = true;
                    proof {
                        assert(ex@[ex0.len() as int] == x);
                        assert(ex@[fq as int] == ex0[fq as int]);
                        assert forall|k: int| 0 <= k < td@.len() implies !ex@.contains(#[trigger] td@[k]) by {
                            if ex@.contains(td@[k]) {
                                let q2 = choose|q2: int| 0 <= q2 < ex@.len() && ex@[q2] == td@[k];
                                if q2 < ex0.len() {
                                    assert(ex0[q2] == td@[k]);
                                    if k < fp {
                                        assert(td0[k] == td@[k]);
                                    } else {
                                        assert(td0[k + 1] == td@[k]);
                                    }
                                } else {
                                    assert(td0[fp as int] == x);
                                    if k < fp {
                                        assert(td0[k] == td@[k]);
                                    } else {
                                        assert(td0[k + 1] == td@[k]);
                                    }
                                }
                            }
                        }
                        assert forall|j: int| 0 <= j < len && scd_eligible(b[j]) implies td@.contains(j as usize) || ex@.contains(j as usize) by {
                            if td0.contains(j as usize) {
                                let k = choose|k: int| 0 <= k < td0.len() && td0[k] == j as usize;
                                if k < fp {
                                    assert(td@[k] == j as usize);
                                } else if k > fp {
                                    assert(td@[k - 1] == j as usize);
                                } else {
                                    assert(ex@[ex0.len() as int] == j as usize);
                                }
                            } else {
                                let k = choose|k: int| 0 <= k < ex0.len() && ex0[k] == j as usize;
                                assert(ex@[k] == j as usize);
                            }
                        }
                        assert forall|S: Set<int>| #[trigger] is_safe_set(b, S, nn) implies forall|k: int| 0 <= k < ex@.len() ==> !S.contains(#[trigger] ex@[k] as int) by {
                            assert forall|k: int| 0 <= k < ex@.len() implies !S.contains(#[trigger] ex@[k] as int) by {
                                if k < ex0.len() {
                                    assert(ex@[k] == ex0[k]);
                                } else {
                                    let e = ex0[fq as int];
                                    assert(!S.contains(e as int));
                                    assert(scd_eligible(b[e as int]));
                                    if S.contains(x as int) {
                                        assert(!cannot_deliver_spec(rec_cl(b[x as int]), rec_cl(b[e as int]), nn));
                                    }
                                }
                            }
                        }
                        assert(td@.no_duplicates()) by {
                            assert forall|k1: int, k2: int| 0 <= k1 < td@.len() && 0 <= k2 < td@.len() && k1 != k2 implies td@[k1] != td@[k2] by {
                                let a1 = if k1 < fp { k1 } else { k1 + 1 };
                                let a2 = if k2 < fp { k2 } else { k2 + 1 };
                                assert(td@[k1] == td0[a1]);
                                assert(td@[k2] == td0[a2]);
                            }
                        }
                    }
                },
                None => {},
            }
        }
        // Deliver what is left, in buffer order of the candidates.
        let ghost d0 = td@;
        let mut msgs: Vec<String> = Vec::new();
        let mut k: usize = 0;
        while k < td.len()
            invariant
                td@ == d0,
                d0.no_duplicates(),
                forall|k2: int| 0 <= k2 < d0.len() ==> d0[k2] < len && scd_eligible(b[d0[k2] as int]),
                len == b.len(),
                nn == self.n(),
                self.settings == old(self).settings,
                same_but_buffer_and_delivered(*old(self), *self),
                self.counter == old(self).counter,
                self.delivered == old(self).delivered,
                self.buffer@.len() == len,
                old(self).buffer@ == b,
                k <= d0.len(),
                msgs@.len() == k,
                forall|k2: int| 0 <= k2 < k ==> (#[trigger] msgs@[k2])@ == payload_text(b[d0[k2] as int]),
                forall|j: int| 0 <= j < len ==> if (exists|k2: int| 0 <= k2 < k && d0[k2] == j as usize) {
                    is_scd_delivered(b[j], #[trigger] self.buffer@[j])
                } else {
                    self.buffer@[j] == b[j]
                },
                forall|j: int| 0 <= j < len ==> #[trigger] self.buffer@[j].wf(nn),
            decreases d0.len() - k,
        {
            let x = td[k];
            assert(self.buffer@[x as int] == b[x as int]) by {
                if exists|k2: int| 0 <= k2 < k && d0[k2] == x {
                    let k2 = choose|k2: int| 0 <= k2 < k && d0[k2] == x;
                    assert(d0[k2] == d0[k as int]);
                }
            }
            let text = match &self.buffer[x].msg {
                Some(Payload::Forward(fw)) => fw.msg.clone(),
                Some(Payload::Text(t)) => t.clone(),
                None => String::new(),
            };
            msgs.push(text);
            let ghost pre = self.buffer@;
            assert(pre[x as int].wf(nn));
            match &mut self.buffer[x].meta {
                Some(m) => {
                    m.delivered = true;
                },
                None => {},
            }
            proof {
                assert forall|j: int| 0 <= j < len implies #[trigger] self.buffer@[j].wf(nn) by {
                    if j != x {
                        assert(self.buffer@[j] == pre[j]);
                    }
                }
                assert forall|j: int| 0 <= j < len implies (if (exists|k2: int| 0 <= k2 < k + 1 && d0[k2] == j as usize) {
                    is_scd_delivered(b[j], #[trigger] self.buffer@[j])
                } else {
                    self.buffer@[j] == b[j]
                }) by {
                    if j != x {
                        if exists|k2: int| 0 <= k2 < k + 1 && d0[k2] == j as usize {
                            let k2 = choose|k2: int| 0 <= k2 < k + 1 && d0[k2] == j as usize;
                            assert(k2 < k);
                        }
                    } else {
                        assert(d0[k as int] == j as usize);
                    }
                }
            }
            k = k + 1;
        }
        proof {
            lemma_count_text(msgs@, texts_of(b, d0), msgs@.len() as int);
        }
        if msgs.len() > 0 {
            self.scd_deliver(msgs);
        }
        td
    }
    /// Smallest sequence number of sender `node_id` that SCD records still
    /// hold, if any.
    pub fn min_saved(&self, node_id: NodeId) -> (r: Option<Int>)
        requires
            self.wf(),
            1 <= node_id <= self.n(),
        ensures
            r.is_none() <==> saved_set(self.buffer@, node_id).is_empty(),
            r matches Some(m) ==> saved_set(self.buffer@, node_id).contains(m)
                && forall|v: Int| saved_set(self.buffer@, node_id).contains(v) ==> m <= v,
    {
        let sv = self.saved(node_id);
        let mut r: Option<Int> = None;
        let mut i: usize = 0;
        while i < sv.len()
            invariant
                i <= sv@.len(),
                r.is_none() <==> i == 0,
                r matches Some(m) ==> sv@.take(i as int).contains(m) && forall|q: int| 0 <= q < i ==> m <= sv@[q],
            decreases sv@.len() - i,
        {
            let v = sv[i];
            r = match r {
                Some(m) => if v < m { Some(v) } else { Some(m) },
                None => Some(v),
            };
            proof {
                let m = r.unwrap();
                if m == v {
                    assert(sv@.take(i + 1)[i as int] == v);
                } else {
                    let q = choose|q: int| 0 <= q < i && sv@.take(i as int)[q] == m;
                    assert(sv@.take(i + 1)[q] == m);
                }
            }
            i = i + 1;
        }
        proof {
            assert(sv@.take(sv@.len() as int) == sv@);
            if sv@.len() == 0 {
                assert(sv@.to_set() =~= Set::<Int>::empty());
            } else {
                assert(sv@.to_set().contains(sv@[0]));
            }
            if let Some(m) = r {
                assert(sv@.contains(m));
                assert(sv@.to_set().contains(m));
                assert forall|v: Int| saved_set(self.buffer@, node_id).contains(v) implies m <= v by {
                    assert(sv@.to_set().contains(v));
                    let q = choose|q: int| 0 <= q < sv@.len() && sv@[q] == v;
                }
            }
        }
        r
    }
    /// Applies SCD-delivered counter operations: one up per increment, one
    /// down per decrement, other messages ignored.
    pub fn counter_received(&mut self, message: Vec<String>)
        ensures
            final(self).counter == clamp64(old(self).counter + count_plus(message@, message@.len() as int)
                - count_minus(message@, message@.len() as int)),
            final(self).buffer == old(self).buffer,
            same_but_buffer_and_delivered(*old(self), *final(self)),
            final(self).delivered == old(self).delivered,
    {
        let mut k: i128 = 0;
        let mut l: i128 = 0;
        let mut i: usize = 0;
        while i < message.len()
            invariant
                i <= message@.len(),
                k == count_plus(message@, i as int),
                l == count_minus(message@, i as int),
            decreases message@.len() - i,
        {
            proof {
                lemma_counts_bounded(message@, i as int);
            }
            if json_is_PLUS_Message(message[i].as_str()) {
                k = k + 1;
            }
            if json_is_MINUS_Message(message[i].as_str()) {
                l = l + 1;
            }
            i = i + 1;
        }
        proof {
            lemma_counts_bounded(message@, message@.len() as int);
        }
        let v: i128 = self.counter as i128 + k - l;
        self.counter = if v > i64::MAX as i128 {
            i64::MAX
        } else if v < i64::MIN as i128 {
            i64::MIN
        } else {
            v as i64
        };
    }

    /// Value of the replicated counter.
    pub fn read(&self) -> (r: i64)
        ensures
            r == self.counter,
    {
        self.counter
    }

    /// Hands a batch of SCD deliveries over: to the counter in the counter
    /// variant, to the application otherwise.
    pub fn scd_deliver(&mut self, msgs: Vec<String>)
        ensures
            final(self).buffer == old(self).buffer,
            same_but_buffer_and_delivered(*old(self), *final(self)),
            final(self).settings == old(self).settings,
            old(self).settings.variant == Variant::COUNTER ==> final(self).delivered == old(self).delivered
                && final(self).counter == clamp64(old(self).counter + count_plus(msgs@, msgs@.len() as int)
                - count_minus(msgs@, msgs@.len() as int)),
            old(self).settings.variant != Variant::COUNTER ==> final(self).delivered@ == old(self).delivered@.push(
                Delivery::Scd(msgs)) && final(self).counter == old(self).counter,
    {
        match self.settings.variant {
            Variant::COUNTER => self.counter_received(msgs),
            _ => self.delivered.push(Delivery::Scd(msgs)),
        }
    }
}

/// `b` is `a` after `forward(msg, msg_tag, forward_tag, cl)` returned `r`.
pub open spec fn forward_post(a: MergedNode, b: MergedNode, msg: String, msg_tag: Tag, forward_tag: Tag, cl: Option<VectorClock>, r: Option<Tag>) -> bool {
    &&& (b.wf())
    &&& (b.seq == a.seq)
    &&& (b.urb_rxObsS == a.urb_rxObsS)
    &&& (b.urb_txObsS == a.urb_txObsS)
    &&& (b.next_to_deliver == a.next_to_deliver)
    &&& (b.theta == a.theta)
    &&& (b.settings == a.settings)
    &&& (b.outbox == a.outbox)
    &&& (b.delivered == a.delivered)
    &&& (find_scd(a.buffer@, msg_tag) matches Some(i) ==> r.is_none() 
        && same_but_buffer(a, b) 
        && b.buffer@.len() == a.buffer@.len() 
        && (forall|j: int| 0 <= j < a.buffer@.len() && j != i ==> b.buffer@[j] == a.buffer@[j]) 
        && is_forward_merged(a.buffer@[i], b.buffer@[i], forward_tag, opt_clock(cl)))
    &&& (find_scd(a.buffer@, msg_tag).is_none() && msg_tag.seq > a.scd_rxObsS@[msg_tag.id - 1] 
        && a.sn < Int::MAX ==> r == Some(Tag { id: a.node_id, seq: a.sn }) 
        && b.sn == a.sn + 1 
        && b.scd_rxObsS == a.scd_rxObsS 
        && b.buffer@.drop_last() == a.buffer@ 
        && b.buffer@.len() == a.buffer@.len() + 1 
        && is_new_scd_record(b.buffer@.last(), msg, msg_tag, forward_tag, a.node_id, 
        a.sn, a.n()))
    &&& (find_scd(a.buffer@, msg_tag).is_none() && msg_tag.seq > a.scd_rxObsS@[msg_tag.id - 1] 
        && a.sn == Int::MAX ==> r.is_none() && b == a)
    &&& (find_scd(a.buffer@, msg_tag).is_none() && msg_tag.seq <= a.scd_rxObsS@[msg_tag.id - 1] 
        ==> r.is_none() && b.buffer == a.buffer && b.sn == a.sn 
        && b.scd_rxObsS@ == a.scd_rxObsS@.update(forward_tag.id - 1, 
        max_int(a.scd_rxObsS@[forward_tag.id - 1], forward_tag.seq)))
}

} // verus!
