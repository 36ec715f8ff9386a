//! Self-stabilizing uniform reliable broadcast (URB) and sequentially
//! consistent delivery (SCD) for a fixed set of nodes.
//!
//! The engine of one node is `node::MergedNode`. It owns all of the node's
//! protocol state; `MergedNode::bare_bone_loop_iter` runs one tick of the
//! driver loop on the messages received since the previous tick and leaves
//! the messages to send in the node's outbox and the deliveries for the
//! application in its delivery list.
#![allow(non_snake_case, non_camel_case_types)]

pub mod bits;
pub mod clock;
pub mod driver;
pub mod fault;
pub mod fd;
pub mod laws;
pub mod messages;
pub mod node;
pub mod receive;
pub mod record;
pub mod recovery;
pub mod scd;
pub mod scd_gc;
pub mod step;
pub mod types;
pub mod urb;
