use vstd::prelude::*;
use vstd::string::StringSliceAdditionalSpecFns;
use crate::clock::VectorClock;
use crate::types::{Int, NodeId, Tag};

verus! {

/// A value that travels between nodes.
pub trait Message {}

/// URB progress summary sent to one peer.
#[derive(Clone, Copy, Debug, PartialEq, Eq, Structural)]
pub struct GOSSIP {
    pub sender: NodeId,
    pub urb_maxSeq: Int,
    pub urb_rxObsS: Int,
    pub urb_txObsS: Int,
}

impl Message for GOSSIP {}

/// SCD progress summary sent to one peer.
#[derive(Clone, Copy, Debug, PartialEq, Eq, Structural)]
pub struct SCDGOSSIP {
    pub sender: NodeId,
    pub scd_maxSeq: Int,
    pub scd_rxObsS: Int,
    pub scd_txObsS: Int,
    pub scd_rxSpace: Option<Int>,
    pub scd_txSpace: Option<Int>,
}

impl Message for SCDGOSSIP {}

/// Both progress summaries, carried by every `MSG`.
#[derive(Clone, Copy, Debug, PartialEq, Eq, Structural)]
pub struct CombinedGossip {
    pub urb_gossip: GOSSIP,
    pub scd_gossip: SCDGOSSIP,
}

impl Message for CombinedGossip {}

/// An SCD message on its way through the URB layer.
#[derive(Clone, Debug, PartialEq, Eq)]
pub struct FORWARD {
    pub msg: String,
    pub msg_tag: Tag,
    pub forward_tag: Tag,
    pub cl: VectorClock,
}

impl Message for FORWARD {}

/// What a URB record carries: an application payload, or an SCD forward.
#[derive(Clone, Debug, PartialEq, Eq)]
pub enum Payload {
    Text(String),
    Forward(FORWARD),
}

/// The same payload: equal text, or a forward with equal fields and clock.
pub open spec fn same_payload(a: Option<Payload>, b: Option<Payload>) -> bool {
    match (a, b) {
        (None, None) => true,
        (Some(Payload::Text(x)), Some(Payload::Text(y))) => x == y,
        (Some(Payload::Forward(f)), Some(Payload::Forward(g))) => f.msg == g.msg && f.msg_tag == g.msg_tag
            && f.forward_tag == g.forward_tag && f.cl@ == g.cl@,
        _ => false,
    }
}

/// A copy of a record's payload.
pub fn copy_payload(p: &Option<Payload>) -> (r: Option<Payload>)
    ensures
        same_payload(r, *p),
{
    match p {
        None => None,
        Some(Payload::Text(s)) => Some(Payload::Text(s.clone())),
        Some(Payload::Forward(f)) => Some(Payload::Forward(FORWARD {
            msg: f.msg.clone(),
            msg_tag: f.msg_tag,
            forward_tag: f.forward_tag,
            cl: VectorClock { vc: f.cl.vc.clone() },
        })),
    }
}

/// A URB broadcast instance with its acknowledgement bitmaps, packed as
/// bytes (most significant bit first).
#[derive(Clone, Debug, PartialEq, Eq)]
pub struct MSG {
    pub sender: NodeId,
    pub msg: Option<Payload>,
    pub tag: Tag,
    pub recv_by: Vec<u8>,
    pub recv_by_trusted: Vec<u8>,
    pub gossip: CombinedGossip,
}

impl Message for MSG {}

/// Acknowledgement of a `MSG`, with the sender's bitmap for the tag.
#[derive(Clone, Debug, PartialEq, Eq)]
pub struct MSGAck {
    pub sender: NodeId,
    pub tag: Tag,
    pub recv_by: Vec<u8>,
}

impl Message for MSGAck {}

/// SCD bookkeeping of one buffer record.
#[derive(Clone, Debug, PartialEq, Eq)]
pub struct SCDMETA {
    pub tag: Tag,
    pub cl: VectorClock,
    pub delivered: bool,
    pub txDes: Option<Tag>,
    pub transmission_counter: Int,
}

impl Message for SCDMETA {}

/// Heartbeat of the retransmission-throttling failure detector.
#[derive(Clone, Copy, Debug, PartialEq, Eq, Structural)]
pub struct HbfdMessage {
    pub sender: NodeId,
}

impl Message for HbfdMessage {}

/// Heartbeat of the trust failure detector.
#[derive(Clone, Copy, Debug, PartialEq, Eq, Structural)]
pub struct ThetafdMessage {
    pub sender: NodeId,
}

impl Message for ThetafdMessage {}

/// Announces a node to the others.
#[derive(Clone, Copy, Debug, PartialEq, Eq, Structural)]
pub struct SYNC {
    pub sender_id: Int,
}

impl Message for SYNC {}

/// Counter increment by node `i`, SCD-broadcast.
#[derive(Clone, Copy, Debug, PartialEq, Eq, Structural)]
pub struct PLUS {
    pub i: Int,
}

impl Message for PLUS {}

/// Counter decrement by node `i`, SCD-broadcast.
#[derive(Clone, Copy, Debug, PartialEq, Eq, Structural)]
pub struct MINUS {
    pub i: Int,
}

impl Message for MINUS {}

/// Every message kind a node sends or receives.
#[derive(Clone, Debug, PartialEq, Eq)]
pub enum WireMessage {
    Msg(MSG),
    Ack(MSGAck),
    Gossip(GOSSIP),
    ScdGossip(SCDGOSSIP),
    Forward(FORWARD),
    Hbfd(HbfdMessage),
    Theta(ThetafdMessage),
}

/// The relay queue a received message belongs to.
#[derive(Clone, Copy, Debug, PartialEq, Eq, Structural, Hash)]
pub enum MessageType {
    MSG,
    MSGAck,
    GOSSIP,
    FORWARD,
    SCDGOSSIP,
    HbfdMessage,
    ThetafdMessage,
}

/// `p` is a prefix of `s`.
pub open spec fn is_prefix(p: Seq<u8>, s: Seq<u8>) -> bool {
    p.len() <= s.len() && s.subrange(0, p.len() as int) == p
}

/// Whether the bytes of `s` start with the bytes of `p`.
pub fn has_prefix(s: &str, p: &str) -> (r: bool)
    ensures
        r == is_prefix(p.spec_bytes(), s.spec_bytes()),
{
    let sb = s.as_bytes();
    let pb = p.as_bytes();
    if pb.len() > sb.len() {
        return false;
    }
    let mut i: usize = 0;
    while i < pb.len()
        invariant
            pb@ == p.spec_bytes(),
            sb@ == s.spec_bytes(),
            pb@.len() <= sb@.len(),
            i <= pb@.len(),
            forall|j: int| 0 <= j < i ==> sb@[j] == pb@[j],
        decreases pb@.len() - i,
    {
        if sb[i] != pb[i] {
            proof {
                assert(sb@.subrange(0, pb@.len() as int)[i as int] != pb@[i as int]);
            }
            return false;
        }
        i = i + 1;
    }
    proof {
        assert(sb@.subrange(0, pb@.len() as int) =~= pb@);
    }
    true
}

pub fn json_is_MSG_message(json: &str) -> (r: bool)
    ensures
        r == is_prefix("{\"MSG\":".spec_bytes(), json.spec_bytes()),
{
    has_prefix(json, "{\"MSG\":")
}

pub fn json_is_MSGAck_message(json: &str) -> (r: bool)
    ensures
        r == is_prefix("{\"MSGAck\":".spec_bytes(), json.spec_bytes()),
{
    has_prefix(json, "{\"MSGAck\":")
}

pub fn json_is_GOSSIP_message(json: &str) -> (r: bool)
    ensures
        r == is_prefix("{\"GOSSIP\":".spec_bytes(), json.spec_bytes()),
{
    has_prefix(json, "{\"GOSSIP\":")
}

pub fn json_is_FORWARD_message(json: &str) -> (r: bool)
    ensures
        r == is_prefix("{\"FORWARD\":".spec_bytes(), json.spec_bytes()),
{
    has_prefix(json, "{\"FORWARD\":")
}

pub fn json_is_SCDGOSSIP_message(json: &str) -> (r: bool)
    ensures
        r == is_prefix("{\"SCDGOSSIP\":".spec_bytes(), json.spec_bytes()),
{
    has_prefix(json, "{\"SCDGOSSIP\":")
}

pub fn json_is_HbfdMessage(json: &str) -> (r: bool)
    ensures
        r == is_prefix("{\"HbfdMessage\":".spec_bytes(), json.spec_bytes()),
{
    has_prefix(json, "{\"HbfdMessage\":")
}

pub fn json_is_ThetafdMessage(json: &str) -> (r: bool)
    ensures
        r == is_prefix("{\"ThetafdMessage\":".spec_bytes(), json.spec_bytes()),
{
    has_prefix(json, "{\"ThetafdMessage\":")
}

pub fn json_is_SYNC_Message(json: &str) -> (r: bool)
    ensures
        r == is_prefix("{\"SYNC\":".spec_bytes(), json.spec_bytes()),
{
    has_prefix(json, "{\"SYNC\":")
}

pub fn json_is_PLUS_Message(json: &str) -> (r: bool)
    ensures
        r == is_prefix("{\"PLUS\":".spec_bytes(), json.spec_bytes()),
{
    has_prefix(json, "{\"PLUS\":")
}

pub fn json_is_MINUS_Message(json: &str) -> (r: bool)
    ensures
        r == is_prefix("{\"MINUS\":".spec_bytes(), json.spec_bytes()),
{
    has_prefix(json, "{\"MINUS\":")
}

/// The relay queue of an encoded message, read from the type name that
/// starts its encoding; `None` for an unrecognised message.
pub fn classify(json: &str) -> (r: Option<MessageType>)
    ensures
        r == Some(MessageType::HbfdMessage) <==> is_prefix("{\"HbfdMessage\":".spec_bytes(), json.spec_bytes()),
        r == Some(MessageType::ThetafdMessage) <==> !is_prefix("{\"HbfdMessage\":".spec_bytes(), json.spec_bytes())
            && is_prefix("{\"ThetafdMessage\":".spec_bytes(), json.spec_bytes()),
        r.is_none() ==> !is_prefix("{\"MSG\":".spec_bytes(), json.spec_bytes())
            && !is_prefix("{\"MSGAck\":".spec_bytes(), json.spec_bytes())
            && !is_prefix("{\"GOSSIP\":".spec_bytes(), json.spec_bytes())
            && !is_prefix("{\"FORWARD\":".spec_bytes(), json.spec_bytes())
            && !is_prefix("{\"SCDGOSSIP\":".spec_bytes(), json.spec_bytes())
            && !is_prefix("{\"HbfdMessage\":".spec_bytes(), json.spec_bytes())
            && !is_prefix("{\"ThetafdMessage\":".spec_bytes(), json.spec_bytes()),
        r == Some(MessageType::MSG) ==> is_prefix("{\"MSG\":".spec_bytes(), json.spec_bytes()),
        r == Some(MessageType::MSGAck) ==> is_prefix("{\"MSGAck\":".spec_bytes(), json.spec_bytes()),
        r == Some(MessageType::GOSSIP) ==> is_prefix("{\"GOSSIP\":".spec_bytes(), json.spec_bytes()),
        r == Some(MessageType::FORWARD) ==> is_prefix("{\"FORWARD\":".spec_bytes(), json.spec_bytes()),
        r == Some(MessageType::SCDGOSSIP) ==> is_prefix("{\"SCDGOSSIP\":".spec_bytes(), json.spec_bytes()),
{
    if json_is_HbfdMessage(json) {
        Some(MessageType::HbfdMessage)
    } else if json_is_ThetafdMessage(json) {
        Some(MessageType::ThetafdMessage)
    } else if json_is_MSG_message(json) {
        Some(MessageType::MSG)
    } else if json_is_MSGAck_message(json) {
        Some(MessageType::MSGAck)
    } else if json_is_GOSSIP_message(json) {
        Some(MessageType::GOSSIP)
    } else if json_is_FORWARD_message(json) {
        Some(MessageType::FORWARD)
    } else if json_is_SCDGOSSIP_message(json) {
        Some(MessageType::SCDGOSSIP)
    } else {
        None
    }
}

} // verus!
