use vstd::prelude::*;
use crate::clock::merge_clock;
use crate::record::BufferRecord;
use crate::types::{Int, Tag};
use crate::urb::{count_sender, fifo_deliveries};

verus! {

/// Forwarding the same message twice with the same clock leaves the clock
/// as after the first time: a duplicate `FORWARD` changes nothing.
pub proof fn law_forward_clock_idempotent(local: Seq<Option<Int>>, f: Tag, c: Option<Seq<Option<Int>>>)
    requires
        1 <= f.id <= local.len(),
    ensures
        merge_clock(merge_clock(local, f, c), f, c) == merge_clock(local, f, c),
{
    let m = merge_clock(local, f, c);
    assert(merge_clock(m, f, c) =~= m);
}

/// A merge never overwrites a known clock entry: the first writer wins.
pub proof fn law_merge_keeps_known(local: Seq<Option<Int>>, f: Tag, c: Option<Seq<Option<Int>>>)
    requires
        1 <= f.id <= local.len(),
    ensures
        merge_clock(local, f, c).len() == local.len(),
        forall|i: int| 0 <= i < local.len() && local[i].is_some() ==> #[trigger] merge_clock(local, f, c)[i] == local[i],
{
}

proof fn lemma_count_sender_grows(b: Seq<BufferRecord>, d: Seq<usize>, s: usize, k1: int, k2: int)
    requires
        0 <= k1 < k2 <= d.len(),
        b[d[k1] as int].urb_tag.unwrap().id == s,
    ensures
        count_sender(b, d, s, k2) >= count_sender(b, d, s, k1) + 1,
    decreases k2 - k1,
{
    if k2 > k1 + 1 {
        lemma_count_sender_grows(b, d, s, k1, k2 - 1);
    }
}

/// Per-sender FIFO: among deliveries made in expected-sequence order, two
/// deliveries of the same sender carry strictly increasing sequence
/// numbers, so none repeats; and consecutive ones of a sender differ by
/// one, so none is skipped.
pub proof fn law_fifo_increasing(b: Seq<BufferRecord>, d: Seq<usize>, ntd: Seq<Int>, k1: int, k2: int)
    requires
        fifo_deliveries(b, d, ntd),
        0 <= k1 < k2 < d.len(),
        b[d[k1] as int].urb_tag.unwrap().id == b[d[k2] as int].urb_tag.unwrap().id,
    ensures
        b[d[k1] as int].urb_tag.unwrap().seq < b[d[k2] as int].urb_tag.unwrap().seq,
        (forall|k: int| k1 < k < k2 ==> b[d[k] as int].urb_tag.unwrap().id != b[d[k1] as int].urb_tag.unwrap().id)
            ==> b[d[k2] as int].urb_tag.unwrap().seq == b[d[k1] as int].urb_tag.unwrap().seq + 1,
{
    let s = b[d[k1] as int].urb_tag.unwrap().id;
    lemma_count_sender_grows(b, d, s, k1, k2);
    assert(b[d[k1] as int] == b[d[k1] as int]);
    assert(b[d[k2] as int] == b[d[k2] as int]);
    if forall|k: int| k1 < k < k2 ==> b[d[k] as int].urb_tag.unwrap().id != s {
        lemma_count_sender_between(b, d, s, k1, k2);
    }
}

proof fn lemma_count_sender_between(b: Seq<BufferRecord>, d: Seq<usize>, s: usize, k1: int, k2: int)
    requires
        0 <= k1 < k2 <= d.len(),
        b[d[k1] as int].urb_tag.unwrap().id == s,
        forall|k: int| k1 < k < k2 ==> b[d[k] as int].urb_tag.unwrap().id != s,
    ensures
        count_sender(b, d, s, k2) == count_sender(b, d, s, k1) + 1,
    decreases k2 - k1,
{
    if k2 > k1 + 1 {
        lemma_count_sender_between(b, d, s, k1, k2 - 1);
    }
}


/// No two records carry the same URB tag.
pub open spec fn unique_tags(b: Seq<BufferRecord>) -> bool {
    forall|i: int, j: int|
        0 <= i < b.len() && 0 <= j < b.len() && i != j && (#[trigger] b[i]).urb_tag.is_some() ==> b[i].urb_tag
            != (#[trigger] b[j]).urb_tag
}

/// A record is URB-delivered exactly when its sequence number is below its
/// sender's next expected one.
pub open spec fn delivered_below_next(b: Seq<BufferRecord>, ntd: Seq<Int>) -> bool {
    forall|j: int|
        0 <= j < b.len() && (#[trigger] b[j]).urb_tag.is_some() && 1 <= b[j].urb_tag.unwrap().id <= ntd.len()
            ==> (b[j].delivered <==> b[j].urb_tag.unwrap().seq < ntd[b[j].urb_tag.unwrap().id - 1])
}

proof fn lemma_count_sender_hits(b: Seq<BufferRecord>, d: Seq<usize>, s: usize, kk: int, c: int)
    requires
        0 <= kk <= d.len(),
        0 <= c < count_sender(b, d, s, kk),
    ensures
        exists|k: int| 0 <= k < kk && b[d[k] as int].urb_tag.unwrap().id == s && count_sender(b, d, s, k) == c,
    decreases kk,
{
    if kk > 0 {
        if c < count_sender(b, d, s, kk - 1) {
            lemma_count_sender_hits(b, d, s, kk - 1, c);
            let k = choose|k: int| 0 <= k < kk - 1 && b[d[k] as int].urb_tag.unwrap().id == s && count_sender(b, d, s, k) == c;
            assert(0 <= k < kk);
        } else {
            assert(b[d[kk - 1] as int].urb_tag.unwrap().id == s);
        }
    }
}

/// Per-sender FIFO over any number of calls: if records are delivered
/// exactly below each sender's next expected number before a delivery pass
/// that delivers in FIFO order and advances the next expected numbers by the
/// deliveries, the same holds after it. So each sender's deliveries run
/// 1, 2, 3, ... with no gap and no repeat.
pub proof fn law_fifo_preserved(
    b0: Seq<BufferRecord>,
    b1: Seq<BufferRecord>,
    d: Seq<usize>,
    ntd0: Seq<Int>,
    ntd1: Seq<Int>,
)
    requires
        unique_tags(b0),
        delivered_below_next(b0, ntd0),
        b1.len() == b0.len(),
        b0.len() <= usize::MAX,
        ntd1.len() == ntd0.len(),
        d.no_duplicates(),
        forall|k: int| 0 <= k < d.len() ==> #[trigger] d[k] < b0.len(),
        forall|k: int| 0 <= k < d.len() ==> (#[trigger] b0[d[k] as int]).urb_tag.is_some() && !b0[d[k] as int].delivered,
        forall|j: int| 0 <= j < b0.len() ==> (#[trigger] b1[j]).urb_tag == b0[j].urb_tag && b1[j].delivered == (b0[j].delivered
            || d.contains(j as usize)),
        fifo_deliveries(b0, d, ntd0),
        forall|s: int| 1 <= s <= ntd0.len() ==> #[trigger] ntd1[s - 1] == ntd0[s - 1] + count_sender(b0, d, s as usize, d.len() as int),
    ensures
        delivered_below_next(b1, ntd1),
{
    assert forall|j: int| 0 <= j < b1.len() && (#[trigger] b1[j]).urb_tag.is_some() && 1 <= b1[j].urb_tag.unwrap().id <= ntd1.len()
        implies (b1[j].delivered <==> b1[j].urb_tag.unwrap().seq < ntd1[b1[j].urb_tag.unwrap().id - 1]) by {
        let t = b1[j].urb_tag.unwrap();
        let s = t.id;
        assert(b0[j].urb_tag == b1[j].urb_tag);
        assert(ntd1[s - 1] == ntd0[s - 1] + count_sender(b0, d, s, d.len() as int));
        if b1[j].delivered {
            if !b0[j].delivered {
                let k = choose|k: int| 0 <= k < d.len() && d[k] == j as usize;
                assert(d[k] as int == j);
                lemma_count_sender_grows(b0, d, s, k, d.len() as int);
            }
        }
        if t.seq < ntd1[s - 1] && !b0[j].delivered {
            let c = t.seq - ntd0[s - 1];
            lemma_count_sender_hits(b0, d, s, d.len() as int, c);
            let k = choose|k: int| 0 <= k < d.len() && b0[d[k] as int].urb_tag.unwrap().id == s && count_sender(b0, d, s, k) == c;
            let r = b0[d[k] as int];
            assert(r.urb_tag.unwrap().seq == ntd0[s - 1] + c);
            assert(r.urb_tag == b0[j].urb_tag);
            if d[k] as int != j {
                assert(b0[d[k] as int].urb_tag != b0[j].urb_tag);
            }
            assert(d.contains(j as usize));
        }
    }
}

} // verus!
