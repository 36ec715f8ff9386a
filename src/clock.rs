use vstd::prelude::*;
use crate::types::{Int, NodeId, Tag};

verus! {

/// Per-node clock; an entry is a sequence number or unknown (`None`).
#[derive(Clone, Debug, PartialEq, Eq, Hash)]
pub struct VectorClock {
    pub vc: Vec<Option<Int>>,
}

impl View for VectorClock {
    type V = Seq<Option<Int>>;

    open spec fn view(&self) -> Seq<Option<Int>> {
        self.vc@
    }
}

/// `a < b`, where an unknown entry is above every known one.
pub open spec fn entry_lt(a: Option<Int>, b: Option<Int>) -> bool {
    match (a, b) {
        (Some(x), Some(y)) => x < y,
        (Some(_), None) => true,
        (None, _) => false,
    }
}

/// Number of known entries among the first `k`.
pub open spec fn count_known(c: Seq<Option<Int>>, k: int) -> nat
    decreases k,
{
    if k <= 0 {
        0
    } else {
        count_known(c, k - 1) + if c[k - 1].is_some() { 1nat } else { 0nat }
    }
}

/// Number of positions among the first `k` where `a` is below `b`.
pub open spec fn count_below(a: Seq<Option<Int>>, b: Seq<Option<Int>>, k: int) -> nat
    decreases k,
{
    if k <= 0 {
        0
    } else {
        count_below(a, b, k - 1) + if entry_lt(a[k - 1], b[k - 1]) { 1nat } else { 0nat }
    }
}

/// More than half of the `n` entries are known.
pub open spec fn majority_aware_spec(c: Seq<Option<Int>>, n: nat) -> bool {
    count_known(c, c.len() as int) > n / 2
}

/// `q` is below `r` in at most half of the `n` coordinates, so a message
/// with clock `q` may not go before one with clock `r`.
pub open spec fn cannot_deliver_spec(q: Seq<Option<Int>>, r: Seq<Option<Int>>, n: nat) -> bool {
    count_below(q, r, n as int) <= n / 2
}

/// The clock after a forward: an unknown forwarder entry takes the
/// forwarder's sequence number, other unknown entries are filled from the
/// incoming clock, and no known entry changes.
pub open spec fn merge_clock(
    local: Seq<Option<Int>>,
    f: Tag,
    incoming: Option<Seq<Option<Int>>>,
) -> Seq<Option<Int>> {
    let l1 = if local[f.id - 1].is_none() {
        local.update(f.id - 1, Some(f.seq))
    } else {
        local
    };
    match incoming {
        None => l1,
        Some(c) => Seq::new(
            l1.len(),
            |i: int|
                if l1[i].is_none() && i < c.len() && c[i].is_some() {
                    c[i]
                } else {
                    l1[i]
                },
        ),
    }
}

pub proof fn lemma_count_known_bound(c: Seq<Option<Int>>, k: int)
    requires
        0 <= k <= c.len(),
    ensures
        count_known(c, k) <= k,
    decreases k,
{
    if k > 0 {
        lemma_count_known_bound(c, k - 1);
    }
}

pub proof fn lemma_count_below_bound(a: Seq<Option<Int>>, b: Seq<Option<Int>>, k: int)
    requires
        0 <= k,
    ensures
        count_below(a, b, k) <= k,
    decreases k,
{
    if k > 0 {
        lemma_count_below_bound(a, b, k - 1);
    }
}

impl VectorClock {
    /// A clock of `size` entries, each `val`.
    pub fn new(size: usize, val: Option<Int>) -> (r: Self)
        ensures
            r@ == Seq::new(size as nat, |_i: int| val),
    {
        let mut vc: Vec<Option<Int>> = Vec::new();
        let mut i: usize = 0;
        while i < size
            invariant
                i <= size,
                vc@ == Seq::new(i as nat, |_j: int| val),
            decreases size - i,
        {
            vc.push(val);
            i = i + 1;
        }
        VectorClock { vc }
    }

    /// The entry of node `node_id`.
    pub fn get(&self, node_id: NodeId) -> (r: Option<Int>)
        requires
            1 <= node_id <= self@.len(),
        ensures
            r == self@[node_id - 1],
    {
        self.vc[node_id - 1]
    }

    /// Replaces the entry of node `node_id`.
    pub fn set(&mut self, node_id: NodeId, val: Option<Int>)
        requires
            1 <= node_id <= old(self)@.len(),
        ensures
            final(self)@ == old(self)@.update(node_id - 1, val),
    {
        self.vc.set(node_id - 1, val);
    }

    /// All entries, in node order.
    pub fn inner(&self) -> (r: &Vec<Option<Int>>)
        ensures
            r@ == self@,
    {
        &self.vc
    }

    /// A copy with the same entries.
    pub fn copied(&self) -> (r: Self)
        ensures
            r@ == self@,
    {
        let mut vc: Vec<Option<Int>> = Vec::new();
        let mut i: usize = 0;
        while i < self.vc.len()
            invariant
                i <= self@.len(),
                vc@ == self@.take(i as int),
            decreases self@.len() - i,
        {
            vc.push(self.vc[i]);
            proof {
                assert(self@.take(i + 1) == self@.take(i as int).push(self@[i as int]));
            }
            i = i + 1;
        }
        proof {
            assert(self@.take(self@.len() as int) == self@);
        }
        VectorClock { vc }
    }

    /// Gives an unknown entry of `f.id` the value `f.seq` and fills the other
    /// unknown entries from `incoming`; a known entry is never overwritten.
    pub fn merge(&mut self, f: Tag, incoming: &Option<VectorClock>)
        requires
            1 <= f.id <= old(self)@.len(),
        ensures
            final(self)@ == merge_clock(
                old(self)@,
                f,
                match incoming {
                    Some(c) => Some(c@),
                    None => None,
                },
            ),
    {
        if self.vc[f.id - 1].is_none() {
            self.set(f.id, Some(f.seq));
        }
        let ghost l1 = self@;
        match incoming {
            None => {},
            Some(c) => {
                let mut i: usize = 0;
                while i < self.vc.len()
                    invariant
                        self@.len() == l1.len(),
                        i <= l1.len(),
                        forall|j: int|
                            0 <= j < i ==> self@[j] == (if l1[j].is_none() && j < c@.len()
                                && c@[j].is_some() {
                                c@[j]
                            } else {
                                l1[j]
                            }),
                        forall|j: int| i <= j < l1.len() ==> self@[j] == l1[j],
                    decreases l1.len() - i,
                {
                    if self.vc[i].is_none() && i < c.vc.len() && c.vc[i].is_some() {
                        let v = c.vc[i];
                        self.vc.set(i, v);
                    }
                    i = i + 1;
                }
                proof {
                    assert(self@ =~= merge_clock(old(self)@, f, Some(c@)));
                }
            },
        }
    }
}

/// More than half of the `n` entries of the clock are known.
pub fn majority_aware(cl: &VectorClock, n: usize) -> (r: bool)
    ensures
        r == majority_aware_spec(cl@, n as nat),
{
    let mut counter: usize = 0;
    let mut i: usize = 0;
    while i < cl.vc.len()
        invariant
            i <= cl@.len(),
            counter == count_known(cl@, i as int),
        decreases cl@.len() - i,
    {
        proof {
            lemma_count_known_bound(cl@, i as int);
        }
        if cl.vc[i].is_some() {
            counter = counter + 1;
        }
        i = i + 1;
    }
    counter > n / 2
}

/// Whether `q` is below `r` in at most half of the `n` coordinates.
pub fn cannot_deliver(q: &VectorClock, r: &VectorClock, n: usize) -> (res: bool)
    requires
        q@.len() == n,
        r@.len() == n,
    ensures
        res == cannot_deliver_spec(q@, r@, n as nat),
{
    let mut counter: usize = 0;
    let mut i: usize = 0;
    while i < n
        invariant
            q@.len() == n,
            r@.len() == n,
            i <= n,
            counter == count_below(q@, r@, i as int),
        decreases n - i,
    {
        proof {
            lemma_count_below_bound(q@, r@, i as int);
        }
        let below = match (q.vc[i], r.vc[i]) {
            (Some(x), Some(y)) => x < y,
            (Some(_), None) => true,
            (None, _) => false,
        };
        if below {
            counter = counter + 1;
        }
        i = i + 1;
    }
    counter <= n / 2
}

/// One undelivered SCD message as the delivery decision sees it.
#[derive(Clone, Debug, PartialEq, Eq, Hash)]
pub struct Entry {
    pub msg: String,
    pub tag: Tag,
    pub cl: VectorClock,
    pub delivered: bool,
    pub urb_tag: Tag,
}

} // verus!
