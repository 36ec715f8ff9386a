use vstd::prelude::*;

verus! {

/// Sequence numbers, counters and clock entries.
pub type Int = u64;

/// Node identities run from 1 to the number of nodes.
pub type NodeId = usize;

/// Identifies one broadcast instance of one sender.
#[derive(Clone, Copy, Debug, PartialEq, Eq, Structural, Hash, PartialOrd, Ord)]
pub struct Tag {
    pub id: NodeId,
    pub seq: Int,
}

/// Which layers a node runs.
#[derive(Clone, Copy, Debug, PartialEq, Eq, Structural, Hash)]
pub enum Variant {
    URB,
    SCD,
    COUNTER,
    SNAPSHOT,
}

/// What a client operation reports back.
#[derive(Clone, Copy, Debug, PartialEq, Eq, Structural)]
#[allow(non_camel_case_types, clippy::upper_case_acronyms)]
pub enum StatusCode {
    OK,
    ResultReady,
    ResultNotReady,
    ErrNoSpace,
    Finished,
}

/// A node id is valid in a system of `n` nodes when it lies in `1..=n`.
pub open spec fn valid_id(id: int, n: int) -> bool {
    1 <= id <= n
}

/// Zero-based array position of a node id.
pub fn node_index(id: NodeId) -> (r: usize)
    requires
        id >= 1,
    ensures
        r == id - 1,
{
    id - 1
}

/// Node id of a zero-based array position.
pub fn index_node(i: usize) -> (r: NodeId)
    requires
        i < usize::MAX,
    ensures
        r == i + 1,
{
    i + 1
}

} // verus!
