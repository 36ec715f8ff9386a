use vstd::prelude::*;
use rand::Rng;
use crate::bits::bits_clone;
use crate::clock::VectorClock;
use crate::node::MergedNode;
use crate::record::BufferRecord;
use crate::types::{Int, Variant};

verus! {

/// Relies on `rand::thread_rng().gen_range(low, high)`: a value in
/// `[low, high)`; it panics when the range is empty.
#[verifier::external_body]
fn random_in(low: u64, high: u64) -> (r: u64)
    requires
        low < high,
    ensures
        low <= r < high,
{
    rand::thread_rng().gen_range(low, high)
}

/// Largest value a corrupted counter is drawn below.
pub const CORRUPT_RANGE: Int = 10000;

/// The value `r`, drawn from `[0, range - 1)`, moved past `current` so
/// that it differs from it.
pub open spec fn skip_current(r: Int, current: Int) -> Int {
    if r >= current { (r + 1) as Int } else { r }
}

impl MergedNode {
    /// Fault injection: replaces the counter of the layer the node runs
    /// (`seq` for URB, `sn` otherwise) by `drawn` moved past the current
    /// value, so the counter surely changes.
    pub fn corrupt_counter(&mut self, drawn: Int)
        requires
            old(self).wf(),
            drawn < Int::MAX,
        ensures
            final(self).wf(),
            final(self).buffer == old(self).buffer,
            final(self).settings == old(self).settings,
            old(self).settings.variant == Variant::URB ==> final(self).seq == skip_current(drawn, old(self).seq)
                && final(self).seq != old(self).seq && final(self).sn == old(self).sn,
            old(self).settings.variant != Variant::URB ==> final(self).sn == skip_current(drawn, old(self).sn)
                && final(self).sn != old(self).sn && final(self).seq == old(self).seq,
    {
        match self.settings.variant {
            Variant::URB => {
                self.seq = if drawn >= self.seq { drawn + 1 } else { drawn };
            },
            _ => {
                self.sn = if drawn >= self.sn { drawn + 1 } else { drawn };
            },
        }
    }

    /// Fault injection: sets the counter of the layer the node runs to a
    /// random value different from the current one.
    pub fn corrupt_variables(&mut self)
        requires
            old(self).wf(),
        ensures
            final(self).wf(),
            final(self).buffer == old(self).buffer,
            old(self).settings.variant == Variant::URB ==> final(self).seq != old(self).seq,
            old(self).settings.variant != Variant::URB ==> final(self).sn != old(self).sn,
    {
        let drawn = random_in(0, CORRUPT_RANGE - 1);
        self.corrupt_counter(drawn);
    }
    /// Fault injection: appends a copy of a random record, so that its tag
    /// appears twice.
    pub fn duplicate_records(&mut self)
        requires
            old(self).wf(),
        ensures
            final(self).wf(),
            final(self).settings == old(self).settings,
            old(self).buffer@.len() == 0 ==> final(self).buffer == old(self).buffer,
            old(self).buffer@.len() > 0 ==> final(self).buffer@.len() == old(self).buffer@.len() + 1
                && final(self).buffer@.drop_last() == old(self).buffer@
                && exists|j: int| 0 <= j < old(self).buffer@.len()
                    && (#[trigger] old(self).buffer@[j]).urb_tag == final(self).buffer@.last().urb_tag
                    && old(self).buffer@[j].delivered == final(self).buffer@.last().delivered,
    {
        let len = self.buffer.len();
        if len == 0 {
            return;
        }
        let i = random_in(0, len as u64) as usize;
        assert(self.buffer@[i as int].wf(self.n()));
        let copy = {
            let r = &self.buffer[i];
            BufferRecord {
                urb_tag: r.urb_tag,
                msg: r.msg.clone(),
                delivered: r.delivered,
                recBy: bits_clone(&r.recBy),
                recBy_trusted: bits_clone(&r.recBy_trusted),
                prevHB: r.prevHB.clone(),
                urb_needed: r.urb_needed,
                scd_needed: r.scd_needed,
                meta: None,
            }
        };
        self.buffer.push(copy);
        proof {
            assert(self.buffer@.drop_last() =~= old(self).buffer@);
            assert(old(self).buffer@[i as int].urb_tag == self.buffer@.last().urb_tag);
            assert forall|j: int| 0 <= j < self.buffer@.len() implies #[trigger] self.buffer@[j].wf(self.n()) by {
                if j < len {
                    assert(self.buffer@[j] == old(self).buffer@[j]);
                }
            }
        }
    }

    /// Fault injection: removes the payload of a random record.
    pub fn modify_records(&mut self)
        requires
            old(self).wf(),
        ensures
            final(self).wf(),
            final(self).settings == old(self).settings,
            final(self).buffer@.len() == old(self).buffer@.len(),
            old(self).buffer@.len() > 0 ==> exists|j: int| 0 <= j < final(self).buffer@.len()
                && (#[trigger] final(self).buffer@[j]).msg.is_none(),
    {
        let len = self.buffer.len();
        if len == 0 {
            return;
        }
        let i = random_in(0, len as u64) as usize;
        let ghost pre = self.buffer@;
        assert(pre[i as int].wf(self.n()));
        self.buffer[i].msg = None;
        proof {
            assert(self.buffer@[i as int].msg.is_none());
            assert forall|j: int| 0 <= j < self.buffer@.len() implies #[trigger] self.buffer@[j].wf(self.n()) by {
                if j != i {
                    assert(self.buffer@[j] == pre[j]);
                }
            }
        }
    }

    /// Fault injection: makes every entry of the first SCD clock unknown.
    pub fn modify_clocks(&mut self)
        requires
            old(self).wf(),
        ensures
            final(self).wf(),
            final(self).settings == old(self).settings,
            final(self).buffer@.len() == old(self).buffer@.len(),
    {
        let n = self.settings.number_of_nodes;
        let mut i: usize = 0;
        while i < self.buffer.len()
            invariant
                self.wf(),
                n == self.n(),
                i <= self.buffer@.len(),
                self.settings == old(self).settings,
                self.buffer@.len() == old(self).buffer@.len(),
            decreases self.buffer@.len() - i,
        {
            if self.buffer[i].meta.is_some() {
                let ghost pre = self.buffer@;
                assert(pre[i as int].wf(self.n()));
                match &mut self.buffer[i].meta {
                    Some(m) => {
                        m.cl = VectorClock::new(n, None);
                    },
                    None => {},
                }
                proof {
                    assert forall|j: int| 0 <= j < self.buffer@.len() implies #[trigger] self.buffer@[j].wf(self.n()) by {
                        if j != i {
                            assert(self.buffer@[j] == pre[j]);
                        }
                    }
                }
                return;
            }
            i = i + 1;
        }
    }
}

} // verus!
