use vstd::prelude::*;
use bit_vec::BitVec;
use crate::bits::bits_of;
use crate::messages::{Payload, SCDMETA};
use crate::types::{Int, Tag};

verus! {

/// One broadcast instance held by a node: URB acknowledgement state and,
/// for SCD messages, the SCD bookkeeping.
pub struct BufferRecord {
    /// URB tag; assigned once.
    pub urb_tag: Option<Tag>,
    pub msg: Option<Payload>,
    /// URB-delivered; only ever turns true.
    pub delivered: bool,
    /// Nodes known to hold the message.
    pub recBy: BitVec,
    /// Nodes known to have seen it acknowledged by every trusted node.
    pub recBy_trusted: BitVec,
    /// Heartbeat of each peer at the last send to it; `None` before any.
    pub prevHB: Vec<Option<Int>>,
    pub urb_needed: bool,
    pub scd_needed: bool,
    pub meta: Option<SCDMETA>,
}

impl BufferRecord {
    /// Shape of a record in a system of `n` nodes.
    pub open spec fn wf(&self, n: nat) -> bool {
        &&& bits_of(self.recBy).len() == n
        &&& bits_of(self.recBy_trusted).len() == n
        &&& self.prevHB@.len() == n
        &&& (self.urb_tag matches Some(t) ==> 1 <= t.id <= n)
        &&& (self.meta matches Some(m) ==> 1 <= m.tag.id <= n && m.cl@.len() == n)
    }
}

} // verus!
