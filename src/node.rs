use vstd::prelude::*;
use crate::bits::bits_of;
use crate::fd::{Hbfd, Thetafd};
use crate::messages::WireMessage;
use crate::record::BufferRecord;
use crate::types::{Int, NodeId, Tag, Variant};

verus! {

/// Largest supported number of nodes.
pub const MAX_NODES: usize = 65536;

/// Largest supported window size.
pub const MAX_WINDOW: Int = 4294967296;

/// Configuration of one node, fixed for its whole run.
#[derive(Clone, Copy, Debug, PartialEq, Eq, Structural)]
pub struct Settings {
    pub node_id: NodeId,
    pub number_of_nodes: usize,
    /// Bound on outstanding messages per sender.
    pub window_size: Int,
    /// Self-stabilization recovery runs every `delta`-th tick.
    pub delta: Int,
    /// Rounds without a heartbeat after which a peer is no longer trusted.
    pub theta_w: Int,
    pub variant: Variant,
    /// Corruption is injected on purpose in this run, so a recovery is no
    /// sign of a bug.
    pub is_failing_node: bool,
    /// On corruption that no injected fault explains, stop the node
    /// (checking legality) rather than correct the state and go on.
    pub abort_on_corruption: bool,
}

impl Settings {
    pub open spec fn valid(&self) -> bool {
        &&& 1 <= self.number_of_nodes <= MAX_NODES
        &&& 1 <= self.node_id <= self.number_of_nodes
        &&& 1 <= self.window_size <= MAX_WINDOW
        &&& 1 <= self.delta
    }
}

/// What a node hands to the application.
#[derive(Clone, Debug, PartialEq, Eq)]
pub enum Delivery {
    /// A URB delivery of the URB-only variant.
    Urb(Tag, String),
    /// A batch of SCD deliveries, in delivery order.
    Scd(Vec<String>),
}

/// The combined URB and SCD engine of one node. All of its state is owned
/// here; the transport and the application meet it only through the
/// outbox, the deliveries and the methods' results.
pub struct MergedNode {
    pub settings: Settings,
    pub node_id: NodeId,
    // Failure detectors.
    pub theta: Thetafd,
    pub hbfd: Hbfd,
    // URB.
    pub seq: Int,
    pub buffer: Vec<BufferRecord>,
    pub urb_rxObsS: Vec<Int>,
    pub urb_txObsS: Vec<Int>,
    pub next_to_deliver: Vec<Int>,
    // SCD.
    pub sn: Int,
    pub scd_rxObsS: Vec<Int>,
    pub scd_txObsS: Vec<Int>,
    pub scd_rxSpace: Vec<Option<Int>>,
    pub scd_txSpace: Vec<Option<Int>>,
    // Gossip.
    pub gossip_sent: Vec<bool>,
    /// A recovery found corruption that no injected fault explains.
    pub illegally_triggered_ss: bool,
    /// Messages to send, with their receivers.
    pub outbox: Vec<(NodeId, WireMessage)>,
    /// Deliveries to the application.
    pub delivered: Vec<Delivery>,
    /// Value of the replicated counter of the counter variant.
    pub counter: i64,
}

impl MergedNode {
    pub open spec fn n(&self) -> nat {
        self.settings.number_of_nodes as nat
    }

    /// Shape of the state: what the protocol relies on and no corruption
    /// of counters can break.
    pub open spec fn wf(&self) -> bool {
        &&& self.settings.valid()
        &&& self.node_id == self.settings.node_id
        &&& self.theta.wf()
        &&& self.theta.self_id == self.node_id
        &&& self.theta.vector@.len() == self.n()
        &&& self.hbfd.wf()
        &&& self.hbfd.self_id == self.node_id
        &&& self.hbfd.hb@.len() == self.n()
        &&& self.urb_rxObsS@.len() == self.n()
        &&& self.urb_txObsS@.len() == self.n()
        &&& self.next_to_deliver@.len() == self.n()
        &&& self.scd_rxObsS@.len() == self.n()
        &&& self.scd_txObsS@.len() == self.n()
        &&& self.scd_rxSpace@.len() == self.n()
        &&& self.scd_txSpace@.len() == self.n()
        &&& self.gossip_sent@.len() == self.n()
        &&& forall|i: int| 0 <= i < self.buffer@.len() ==> #[trigger] self.buffer@[i].wf(self.n())
    }

    /// Window of the URB layer: the configured window for the URB-only
    /// variant, and room for every node's SCD window otherwise.
    pub open spec fn urb_unit(&self) -> int {
        if self.settings.variant == Variant::URB {
            self.settings.window_size as int
        } else {
            self.settings.window_size * self.settings.number_of_nodes
        }
    }

    pub fn urb_buffer_unit_size(&self) -> (r: Int)
        requires
            self.settings.valid(),
        ensures
            r == self.urb_unit(),
    {
        match self.settings.variant {
            Variant::URB => self.settings.window_size,
            _ => {
                proof {
                    assert(self.settings.window_size * self.settings.number_of_nodes <= MAX_WINDOW * MAX_NODES) by (nonlinear_arith)
                        requires
                            self.settings.window_size <= MAX_WINDOW,
                            self.settings.number_of_nodes <= MAX_NODES,
                    ;
                }
                self.settings.window_size * (self.settings.number_of_nodes as Int)
            },
        }
    }

    /// Window of the SCD layer.
    pub fn scd_buffer_unit_size(&self) -> (r: Int)
        ensures
            r == self.settings.window_size,
    {
        self.settings.window_size
    }

    /// A node in its initial state.
    pub fn new(settings: Settings) -> (r: Self)
        requires
            settings.valid(),
        ensures
            r.wf(),
            r.settings == settings,
            r.seq == 0,
            r.sn == 1,
            r.buffer@.len() == 0,
            r.urb_rxObsS@ == Seq::new(settings.number_of_nodes as nat, |_i: int| 0 as Int),
            r.urb_txObsS@ == Seq::new(settings.number_of_nodes as nat, |_i: int| 0 as Int),
            r.next_to_deliver@ == Seq::new(settings.number_of_nodes as nat, |_i: int| 1 as Int),
            r.scd_rxObsS@ == Seq::new(settings.number_of_nodes as nat, |_i: int| 0 as Int),
            r.scd_txObsS@ == Seq::new(settings.number_of_nodes as nat, |_i: int| 0 as Int),
            r.scd_rxSpace@ == Seq::new(settings.number_of_nodes as nat, |_i: int| None::<Int>),
            r.scd_txSpace@ == Seq::new(settings.number_of_nodes as nat, |_i: int| None::<Int>),
            r.outbox@.len() == 0,
            r.delivered@.len() == 0,
            !r.illegally_triggered_ss,
            r.counter == 0,
            r.gossip_sent@ == Seq::new(settings.number_of_nodes as nat, |_i: int| false),
            r.theta.vector@ == Seq::new(settings.number_of_nodes as nat, |_i: int| 0 as Int),
            bits_of(r.theta.current_trusted) == Seq::new(settings.number_of_nodes as nat, |_i: int| true),
            r.theta.threshold == settings.theta_w,
            r.theta.running,
            r.hbfd.hb@ == Seq::new(settings.number_of_nodes as nat, |_i: int| 0 as Int),
            r.hbfd.running,
    {
        let n = settings.number_of_nodes;
        MergedNode {
            settings,
            node_id: settings.node_id,
            theta: Thetafd::new(n, settings.node_id, settings.theta_w),
            hbfd: Hbfd::new(n, settings.node_id),
            seq: 0,
            buffer: Vec::new(),
            urb_rxObsS: filled(n, 0),
            urb_txObsS: filled(n, 0),
            next_to_deliver: filled(n, 1),
            sn: 1,
            scd_rxObsS: filled(n, 0),
            scd_txObsS: filled(n, 0),
            scd_rxSpace: filled_opt(n),
            scd_txSpace: filled_opt(n),
            gossip_sent: filled_bool(n, false),
            illegally_triggered_ss: false,
            outbox: Vec::new(),
            delivered: Vec::new(),
            counter: 0,
        }
    }
}

/// `n` copies of `v`.
pub fn filled(n: usize, v: Int) -> (r: Vec<Int>)
    ensures
        r@ == Seq::new(n as nat, |_i: int| v),
{
    let mut r: Vec<Int> = Vec::new();
    let mut i: usize = 0;
    while i < n
        invariant
            i <= n,
            r@ == Seq::new(i as nat, |_j: int| v),
        decreases n - i,
    {
        r.push(v);
        i = i + 1;
    }
    r
}

/// `n` unknown entries.
pub fn filled_opt(n: usize) -> (r: Vec<Option<Int>>)
    ensures
        r@ == Seq::new(n as nat, |_i: int| None::<Int>),
{
    let mut r: Vec<Option<Int>> = Vec::new();
    let mut i: usize = 0;
    while i < n
        invariant
            i <= n,
            r@ == Seq::new(i as nat, |_j: int| None::<Int>),
        decreases n - i,
    {
        r.push(None);
        i = i + 1;
    }
    r
}

/// `n` copies of `v`.
pub fn filled_bool(n: usize, v: bool) -> (r: Vec<bool>)
    ensures
        r@ == Seq::new(n as nat, |_i: int| v),
{
    let mut r: Vec<bool> = Vec::new();
    let mut i: usize = 0;
    while i < n
        invariant
            i <= n,
            r@ == Seq::new(i as nat, |_j: int| v),
        decreases n - i,
    {
        r.push(v);
        i = i + 1;
    }
    r
}

} // verus!
