use vstd::prelude::*;
use bit_vec::BitVec;
use crate::bits::{bits_clone, bits_filled, bits_of, bits_set};
use crate::messages::{HbfdMessage, ThetafdMessage};
use crate::types::{Int, NodeId};

verus! {

/// Heartbeat counters per peer, used to throttle retransmission: a record
/// is resent to a peer only after that peer's counter moved.
pub struct Hbfd {
    pub self_id: NodeId,
    pub hb: Vec<Int>,
    pub running: bool,
}

impl Hbfd {
    pub open spec fn wf(&self) -> bool {
        1 <= self.self_id <= self.hb@.len()
    }

    /// Counters at zero for nodes `1..=n`.
    pub fn new(n: usize, self_id: NodeId) -> (r: Self)
        requires
            1 <= self_id <= n,
        ensures
            r.wf(),
            r.self_id == self_id,
            r.hb@ == Seq::new(n as nat, |_i: int| 0 as Int),
            r.running,
    {
        let mut hb: Vec<Int> = Vec::new();
        let mut i: usize = 0;
        while i < n
            invariant
                i <= n,
                hb@ == Seq::new(i as nat, |_j: int| 0 as Int),
            decreases n - i,
        {
            hb.push(0);
            i = i + 1;
        }
        Hbfd { self_id, hb, running: true }
    }

    /// The counters in node order.
    pub fn get_hb(&self) -> (r: Vec<Int>)
        ensures
            r@ == self.hb@,
    {
        self.hb.clone()
    }

    /// Counts a heartbeat of `msg.sender`; a heartbeat from an unknown
    /// node is dropped.
    pub fn on_heartbeat(&mut self, msg: HbfdMessage)
        ensures
            final(self).self_id == old(self).self_id,
            final(self).running == old(self).running,
            1 <= msg.sender <= old(self).hb@.len() ==> final(self).hb@ == old(self).hb@.update(
                msg.sender - 1,
                if old(self).hb@[msg.sender - 1] < Int::MAX {
                    (old(self).hb@[msg.sender - 1] + 1) as Int
                } else {
                    Int::MAX
                },
            ),
            !(1 <= msg.sender <= old(self).hb@.len()) ==> final(self).hb@ == old(self).hb@,
    {
        if 1 <= msg.sender && msg.sender <= self.hb.len() {
            let v = self.hb[msg.sender - 1];
            self.hb.set(msg.sender - 1, v.saturating_add(1));
        }
    }

    /// Heartbeat to `receiver`: to itself a node counts it at once (`None`),
    /// to another it sends a message.
    pub fn send_heartbeat(&mut self, receiver: NodeId) -> (r: Option<HbfdMessage>)
        requires
            old(self).wf(),
        ensures
            final(self).wf(),
            final(self).self_id == old(self).self_id,
            final(self).running == old(self).running,
            receiver == old(self).self_id ==> r.is_none() && final(self).hb@ == old(self).hb@.update(
                receiver - 1,
                if old(self).hb@[receiver - 1] < Int::MAX {
                    (old(self).hb@[receiver - 1] + 1) as Int
                } else {
                    Int::MAX
                },
            ),
            receiver != old(self).self_id ==> r == Some(HbfdMessage { sender: old(self).self_id })
                && final(self).hb@ == old(self).hb@,
    {
        if receiver == self.self_id {
            self.on_heartbeat(HbfdMessage { sender: receiver });
            None
        } else {
            Some(HbfdMessage { sender: self.self_id })
        }
    }

    /// Stops sending heartbeats.
    pub fn stop_thread(&mut self)
        ensures
            !final(self).running,
            final(self).hb == old(self).hb,
            final(self).self_id == old(self).self_id,
    {
        self.running = false;
    }
}

/// Trust failure detector: a counter per peer, reset by the peer's
/// heartbeat and raised by everyone else's; a peer whose counter reaches
/// `threshold` leaves the trusted set for good.
pub struct Thetafd {
    pub self_id: NodeId,
    pub vector: Vec<Int>,
    pub current_trusted: BitVec,
    pub threshold: Int,
    pub running: bool,
}

/// The trusted set after dropping every node whose counter reached `w`.
pub open spec fn shrink_trusted(trusted: Seq<bool>, vector: Seq<Int>, w: Int) -> Seq<bool> {
    Seq::new(trusted.len(), |i: int| trusted[i] && vector[i] < w)
}

/// Counters after a heartbeat of `sender` seen by `self_id`.
pub open spec fn theta_after(vector: Seq<Int>, sender: int, self_id: int) -> Seq<Int> {
    Seq::new(
        vector.len(),
        |i: int|
            if i + 1 == sender || i + 1 == self_id {
                0
            } else if vector[i] < Int::MAX {
                (vector[i] + 1) as Int
            } else {
                Int::MAX
            },
    )
}

impl Thetafd {
    pub open spec fn wf(&self) -> bool {
        &&& 1 <= self.self_id <= self.vector@.len()
        &&& bits_of(self.current_trusted).len() == self.vector@.len()
    }

    /// Every node of `1..=n` trusted, counters at zero.
    pub fn new(n: usize, self_id: NodeId, threshold: Int) -> (r: Self)
        requires
            1 <= self_id <= n,
        ensures
            r.wf(),
            r.self_id == self_id,
            r.threshold == threshold,
            r.vector@ == Seq::new(n as nat, |_i: int| 0 as Int),
            bits_of(r.current_trusted) == Seq::new(n as nat, |_i: int| true),
            r.running,
    {
        let mut vector: Vec<Int> = Vec::new();
        let mut i: usize = 0;
        while i < n
            invariant
                i <= n,
                vector@ == Seq::new(i as nat, |_j: int| 0 as Int),
            decreases n - i,
        {
            vector.push(0);
            i = i + 1;
        }
        Thetafd { self_id, vector, current_trusted: bits_filled(n, true), threshold, running: true }
    }

    /// Drops from the trusted set each node whose counter reached the
    /// threshold, and returns the trusted set.
    pub fn trusted(&mut self) -> (r: BitVec)
        requires
            old(self).wf(),
        ensures
            final(self).wf(),
            final(self).vector == old(self).vector,
            final(self).self_id == old(self).self_id,
            final(self).threshold == old(self).threshold,
            final(self).running == old(self).running,
            bits_of(final(self).current_trusted) == shrink_trusted(
                bits_of(old(self).current_trusted),
                old(self).vector@,
                old(self).threshold,
            ),
            bits_of(r) == bits_of(final(self).current_trusted),
    {
        let n = self.vector.len();
        let ghost t0 = bits_of(self.current_trusted);
        let mut i: usize = 0;
        while i < n
            invariant
                n == self.vector@.len(),
                self.wf(),
                self.vector == old(self).vector,
                self.self_id == old(self).self_id,
                self.threshold == old(self).threshold,
                self.running == old(self).running,
                t0 == bits_of(old(self).current_trusted),
                t0.len() == n,
                i <= n,
                bits_of(self.current_trusted).len() == n,
                forall|j: int| 0 <= j < i ==> bits_of(self.current_trusted)[j] == (t0[j]
                    && self.vector@[j] < self.threshold),
                forall|j: int| i <= j < n ==> bits_of(self.current_trusted)[j] == t0[j],
            decreases n - i,
        {
            let ghost before = bits_of(self.current_trusted);
            assert(forall|j: int| 0 <= j < i ==> before[j] == (t0[j] && self.vector@[j] < self.threshold));
            if self.vector[i] >= self.threshold {
                bits_set(&mut self.current_trusted, i, false);
            }
            assert(forall|j: int| 0 <= j < i ==> before[j] == bits_of(self.current_trusted)[j]);
            i = i + 1;
        }
        proof {
            let s = shrink_trusted(t0, self.vector@, self.threshold);
            assert(s.len() == n);
            assert forall|j: int| 0 <= j < n implies bits_of(self.current_trusted)[j] == s[j] by {
                assert(bits_of(self.current_trusted)[j] == (t0[j] && self.vector@[j] < self.threshold));
            }
            assert(bits_of(self.current_trusted) =~= s);
        }
        bits_clone(&self.current_trusted)
    }

    /// A heartbeat of `msg.sender`: its counter and this node's return to
    /// zero, every other counter grows by one. A heartbeat from an unknown
    /// node is dropped.
    pub fn on_heartbeat(&mut self, msg: ThetafdMessage)
        requires
            old(self).wf(),
        ensures
            final(self).wf(),
            final(self).current_trusted == old(self).current_trusted,
            final(self).self_id == old(self).self_id,
            final(self).threshold == old(self).threshold,
            final(self).running == old(self).running,
            1 <= msg.sender <= old(self).vector@.len() ==> final(self).vector@ == theta_after(
                old(self).vector@,
                msg.sender as int,
                old(self).self_id as int,
            ),
            !(1 <= msg.sender <= old(self).vector@.len()) ==> final(self).vector == old(self).vector,
    {
        if !(1 <= msg.sender && msg.sender <= self.vector.len()) {
            return;
        }
        let n = self.vector.len();
        let ghost v0 = self.vector@;
        let mut i: usize = 0;
        while i < n
            invariant
                n == self.vector@.len(),
                n == v0.len(),
                v0 == old(self).vector@,
                self.current_trusted == old(self).current_trusted,
                self.self_id == old(self).self_id,
                self.threshold == old(self).threshold,
                self.running == old(self).running,
                self.wf(),
                i <= n,
                forall|j: int| 0 <= j < i ==> self.vector@[j] == theta_after(v0, msg.sender as int, self.self_id as int)[j],
                forall|j: int| i <= j < n ==> self.vector@[j] == v0[j],
            decreases n - i,
        {
            let v = self.vector[i];
            let nv = if i + 1 == msg.sender || i + 1 == self.self_id {
                0
            } else {
                v.saturating_add(1)
            };
            self.vector.set(i, nv);
            i = i + 1;
        }
        proof {
            assert(self.vector@ =~= theta_after(v0, msg.sender as int, self.self_id as int));
        }
    }

    /// Stops sending heartbeats.
    pub fn stop_thread(&mut self)
        ensures
            !final(self).running,
            final(self).vector == old(self).vector,
            final(self).current_trusted == old(self).current_trusted,
            final(self).self_id == old(self).self_id,
            final(self).threshold == old(self).threshold,
    {
        self.running = false;
    }
}

} // verus!
