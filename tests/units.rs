use ss_broadcast::driver::{parse_client_op, ClientOp};
use bit_vec::BitVec;
use ss_broadcast::bits::{count_ones, is_subset, urb_is_ack_by_majority};
use ss_broadcast::clock::{cannot_deliver, majority_aware, VectorClock};
use ss_broadcast::fd::{Hbfd, Thetafd};
use ss_broadcast::messages::{
    classify, json_is_FORWARD_message, json_is_GOSSIP_message, json_is_HbfdMessage, json_is_MINUS_Message,
    json_is_MSGAck_message, json_is_MSG_message, json_is_PLUS_Message, json_is_SCDGOSSIP_message,
    json_is_SYNC_Message, json_is_ThetafdMessage, CombinedGossip, HbfdMessage, MessageType, Payload,
    ThetafdMessage, GOSSIP, MSG, MSGAck, SCDGOSSIP,
};
use ss_broadcast::node::{Delivery, MergedNode, Settings};
use ss_broadcast::receive::unpack_bits;
use ss_broadcast::types::{node_index, StatusCode, Tag, Variant};

fn settings(id: usize, n: usize, window: u64, variant: Variant) -> Settings {
    Settings { node_id: id, number_of_nodes: n, window_size: window, delta: 5, theta_w: 3, variant, is_failing_node: false, abort_on_corruption: false }
}

fn bits(v: &[bool]) -> BitVec {
    let mut b = BitVec::from_elem(v.len(), false);
    for (i, x) in v.iter().enumerate() {
        b.set(i, *x);
    }
    b
}

fn gossip(sender: usize) -> CombinedGossip {
    CombinedGossip {
        urb_gossip: GOSSIP { sender, urb_maxSeq: 0, urb_rxObsS: 0, urb_txObsS: 0 },
        scd_gossip: SCDGOSSIP { sender, scd_maxSeq: 0, scd_rxObsS: 0, scd_txObsS: 0, scd_rxSpace: None, scd_txSpace: None },
    }
}

#[test]
fn message_type_prefixes() {
    assert!(json_is_MSG_message("{\"MSG\":1,\"x\":2}"));
    assert!(!json_is_MSG_message("{\"MSGAck\":1}"));
    assert!(json_is_MSGAck_message("{\"MSGAck\":3}"));
    assert!(json_is_GOSSIP_message("{\"GOSSIP\":3}"));
    assert!(!json_is_GOSSIP_message("{\"SCDGOSSIP\":3}"));
    assert!(json_is_SCDGOSSIP_message("{\"SCDGOSSIP\":3}"));
    assert!(json_is_FORWARD_message("{\"FORWARD\":\"a\"}"));
    assert!(json_is_HbfdMessage("{\"HbfdMessage\":2}"));
    assert!(json_is_ThetafdMessage("{\"ThetafdMessage\":2}"));
    assert!(json_is_SYNC_Message("{\"SYNC\":2}"));
    assert!(json_is_PLUS_Message("{\"PLUS\":2}"));
    assert!(json_is_MINUS_Message("{\"MINUS\":2}"));
    assert!(!json_is_MINUS_Message("{\"MINU"));
    assert!(!json_is_MSG_message(""));
}

#[test]
fn classify_routes_by_type_name() {
    assert_eq!(classify("{\"MSG\":1}"), Some(MessageType::MSG));
    assert_eq!(classify("{\"MSGAck\":1}"), Some(MessageType::MSGAck));
    assert_eq!(classify("{\"GOSSIP\":1}"), Some(MessageType::GOSSIP));
    assert_eq!(classify("{\"SCDGOSSIP\":1}"), Some(MessageType::SCDGOSSIP));
    assert_eq!(classify("{\"FORWARD\":1}"), Some(MessageType::FORWARD));
    assert_eq!(classify("{\"HbfdMessage\":1}"), Some(MessageType::HbfdMessage));
    assert_eq!(classify("{\"ThetafdMessage\":1}"), Some(MessageType::ThetafdMessage));
    assert_eq!(classify("{\"OTHER\":1}"), None);
}

#[test]
fn node_id_index_mapping() {
    assert_eq!(node_index(1), 0);
    assert_eq!(node_index(7), 6);
    assert_eq!(ss_broadcast::types::index_node(6), 7);
}

#[test]
fn vector_clock_basics() {
    let mut c = VectorClock::new(3, None);
    assert_eq!(c.get(2), None);
    c.set(2, Some(5));
    assert_eq!(c.get(2), Some(5));
    assert_eq!(c.inner(), &vec![None, Some(5), None]);
    let d = c.copied();
    assert_eq!(d.vc, c.vc);
}

#[test]
fn clock_merge_keeps_known_entries() {
    let mut c = VectorClock { vc: vec![Some(1), None, Some(4)] };
    let incoming = VectorClock { vc: vec![Some(9), Some(2), Some(9)] };
    c.merge(Tag { id: 1, seq: 3 }, &Some(incoming.clone()));
    assert_eq!(c.vc, vec![Some(1), Some(2), Some(4)]);
    c.merge(Tag { id: 1, seq: 3 }, &Some(incoming));
    assert_eq!(c.vc, vec![Some(1), Some(2), Some(4)]);
    // An unknown forwarder entry takes the forwarder's number.
    let mut e = VectorClock { vc: vec![None, None, None] };
    e.merge(Tag { id: 2, seq: 7 }, &Some(VectorClock { vc: vec![Some(1), Some(9), None] }));
    assert_eq!(e.vc, vec![Some(1), Some(7), None]);
}

#[test]
fn majority_awareness_counts_known_entries() {
    assert!(majority_aware(&VectorClock { vc: vec![Some(1), Some(2), None] }, 3));
    assert!(!majority_aware(&VectorClock { vc: vec![Some(1), None, None] }, 3));
    assert!(!majority_aware(&VectorClock { vc: vec![Some(1), Some(1), None, None] }, 4));
}

#[test]
fn cannot_deliver_compares_coordinates() {
    let a = VectorClock { vc: vec![Some(1), Some(1), Some(1)] };
    let b = VectorClock { vc: vec![Some(2), Some(2), Some(0)] };
    // a is below b in two of three entries: it may go first.
    assert!(!cannot_deliver(&a, &b, 3));
    // b is below a in one entry only.
    assert!(cannot_deliver(&b, &a, 3));
    // A known entry is below an unknown one.
    let u = VectorClock { vc: vec![None, None, Some(0)] };
    assert!(!cannot_deliver(&a, &u, 3));
}

#[test]
fn bitmap_helpers() {
    let t = bits(&[true, true, true]);
    assert_eq!(count_ones(&t), 3);
    assert!(is_subset(&bits(&[true, false, true]), &t));
    assert!(!is_subset(&t, &bits(&[true, false, true])));
    // Three trusted: every one must have acknowledged.
    assert!(!urb_is_ack_by_majority(&t, &bits(&[true, true, false])));
    assert!(urb_is_ack_by_majority(&t, &t));
    // Five trusted: fewer than two may be missing.
    let t5 = bits(&[true; 5]);
    assert!(urb_is_ack_by_majority(&t5, &bits(&[true, true, true, true, false])));
    assert!(!urb_is_ack_by_majority(&t5, &bits(&[true, true, true, false, false])));
    // One trusted node: it alone decides.
    assert!(urb_is_ack_by_majority(&bits(&[true, false]), &bits(&[true, false])));
}

#[test]
fn packed_bitmaps_unpack_most_significant_first() {
    let b = unpack_bits(&vec![0b1010_0000u8], 3);
    assert_eq!(b.len(), 3);
    assert_eq!(b.get(0), Some(true));
    assert_eq!(b.get(1), Some(false));
    assert_eq!(b.get(2), Some(true));
}

#[test]
fn hbfd_counts_heartbeats() {
    let mut h = Hbfd::new(3, 1);
    h.on_heartbeat(HbfdMessage { sender: 2 });
    h.on_heartbeat(HbfdMessage { sender: 2 });
    h.on_heartbeat(HbfdMessage { sender: 9 });
    assert_eq!(h.get_hb(), vec![0, 2, 0]);
    assert_eq!(h.send_heartbeat(1), None);
    assert_eq!(h.send_heartbeat(3), Some(HbfdMessage { sender: 1 }));
    assert_eq!(h.get_hb(), vec![1, 2, 0]);
    h.stop_thread();
    assert!(!h.running);
}

#[test]
fn thetafd_drops_silent_nodes_for_good() {
    let mut t = Thetafd::new(3, 1, 2);
    t.on_heartbeat(ThetafdMessage { sender: 3 });
    assert_eq!(t.vector, vec![0, 1, 0]);
    t.on_heartbeat(ThetafdMessage { sender: 3 });
    assert_eq!(t.vector, vec![0, 2, 0]);
    let tr = t.trusted();
    assert_eq!(tr.get(1), Some(false));
    assert_eq!(tr.get(2), Some(true));
    t.on_heartbeat(ThetafdMessage { sender: 2 });
    assert_eq!(t.trusted().get(1), Some(false));
    t.stop_thread();
    assert!(!t.running);
}

#[test]
fn urb_window_refuses_once_full() {
    let mut node = MergedNode::new(settings(1, 3, 2, Variant::URB));
    assert_eq!(node.urb_broadcast("a".to_string()), StatusCode::OK);
    assert_eq!(node.urb_broadcast("b".to_string()), StatusCode::OK);
    assert_eq!(node.urb_broadcast("c".to_string()), StatusCode::ErrNoSpace);
    assert_eq!(node.seq, 2);
    assert_eq!(node.buffer.len(), 2);
    assert!(!node.accepts_operations(1));
}

#[test]
fn duplicate_msg_changes_no_delivery_state() {
    let mut node = MergedNode::new(settings(2, 3, 10, Variant::URB));
    let m = MSG {
        sender: 1,
        msg: Some(Payload::Text("p".to_string())),
        tag: Tag { id: 1, seq: 1 },
        recv_by: vec![0b1000_0000],
        recv_by_trusted: vec![0],
        gossip: gossip(1),
    };
    node.MSG_received(m.clone());
    assert_eq!(node.buffer.len(), 1);
    assert_eq!(node.buffer[0].recBy.get(0), Some(true));
    assert_eq!(node.buffer[0].recBy.get(1), Some(true));
    assert_eq!(node.buffer[0].recBy.get(2), Some(false));
    match &node.outbox[0] {
        (1, ss_broadcast::messages::WireMessage::Ack(a)) => {
            assert_eq!(a.tag, Tag { id: 1, seq: 1 });
            assert_eq!(a.recv_by, vec![0b1100_0000]);
        }
        _ => panic!("expected an acknowledgement"),
    }
    node.MSG_received(m);
    assert_eq!(node.buffer.len(), 1);
    assert!(!node.buffer[0].delivered);
    assert_eq!(node.next_to_deliver, vec![1, 1, 1]);
    assert_eq!(node.outbox.len(), 2);
}

#[test]
fn ack_for_unknown_tag_creates_nothing() {
    let mut node = MergedNode::new(settings(1, 3, 10, Variant::URB));
    node.MSGAck_received(MSGAck { sender: 2, tag: Tag { id: 3, seq: 1 }, recv_by: vec![0xff] });
    assert_eq!(node.buffer.len(), 0);
    // An acknowledgement from an unknown node is dropped.
    node.MSGAck_received(MSGAck { sender: 7, tag: Tag { id: 3, seq: 1 }, recv_by: vec![0xff] });
    assert_eq!(node.buffer.len(), 0);
}

#[test]
fn update_reports_obsolete_and_new_tags() {
    let mut node = MergedNode::new(settings(1, 3, 10, Variant::URB));
    node.urb_rxObsS[1] = 4;
    assert!(node.update(Some(Payload::Text("x".to_string())), Tag { id: 2, seq: 4 }, 2, None, None));
    assert_eq!(node.buffer.len(), 0);
    assert!(!node.update(Some(Payload::Text("x".to_string())), Tag { id: 2, seq: 5 }, 2, None, None));
    assert_eq!(node.buffer.len(), 1);
    assert_eq!(node.get_index_by_urb_tag(&Tag { id: 2, seq: 5 }), Some(0));
    assert!(node.update(None, Tag { id: 2, seq: 5 }, 3, None, None));
    assert_eq!(node.buffer[0].recBy.get(2), Some(true));
    assert!(!node.update(None, Tag { id: 2, seq: 6 }, 3, None, None));
    assert_eq!(node.buffer.len(), 1);
}

#[test]
fn gossip_raises_progress_only() {
    let mut node = MergedNode::new(settings(1, 3, 10, Variant::URB));
    node.GOSSIP_received(GOSSIP { sender: 2, urb_maxSeq: 7, urb_rxObsS: 3, urb_txObsS: 5 });
    assert_eq!(node.seq, 7);
    assert_eq!(node.urb_rxObsS, vec![0, 5, 0]);
    assert_eq!(node.urb_txObsS, vec![0, 3, 0]);
    node.GOSSIP_received(GOSSIP { sender: 2, urb_maxSeq: 1, urb_rxObsS: 1, urb_txObsS: 1 });
    assert_eq!(node.seq, 7);
    assert_eq!(node.urb_rxObsS, vec![0, 5, 0]);
    assert_eq!(node.urb_txObsS, vec![0, 3, 0]);
}

#[test]
fn scd_gossip_merges_space_hints() {
    let mut node = MergedNode::new(settings(1, 3, 10, Variant::SCD));
    let g = SCDGOSSIP { sender: 3, scd_maxSeq: 4, scd_rxObsS: 2, scd_txObsS: 6, scd_rxSpace: Some(3), scd_txSpace: None };
    node.SCDGOSSIP_received(g);
    assert_eq!(node.sn, 4);
    assert_eq!(node.scd_rxObsS, vec![0, 0, 6]);
    assert_eq!(node.scd_txObsS, vec![0, 0, 2]);
    assert_eq!(node.scd_txSpace, vec![None, None, Some(3)]);
    assert_eq!(node.scd_rxSpace, vec![None, None, None]);
    node.SCDGOSSIP_received(SCDGOSSIP { sender: 3, scd_maxSeq: 0, scd_rxObsS: 0, scd_txObsS: 0, scd_rxSpace: Some(5), scd_txSpace: Some(1) });
    assert_eq!(node.scd_txSpace, vec![None, None, Some(5)]);
    assert_eq!(node.scd_rxSpace, vec![None, None, Some(1)]);
}

#[test]
fn forward_twice_leaves_clock_unchanged() {
    let mut node = MergedNode::new(settings(1, 3, 10, Variant::SCD));
    let t = Tag { id: 2, seq: 1 };
    assert_eq!(node.forward("m".to_string(), t, t, None), Some(Tag { id: 1, seq: 1 }));
    let meta = node.buffer[0].meta.clone().unwrap();
    assert_eq!(meta.cl.vc, vec![Some(1), Some(1), None]);
    let incoming = VectorClock { vc: vec![Some(8), Some(9), Some(4)] };
    assert_eq!(node.forward("m".to_string(), t, Tag { id: 3, seq: 2 }, Some(incoming.clone())), None);
    let after_first = node.buffer[0].meta.clone().unwrap().cl.vc;
    assert_eq!(after_first, vec![Some(1), Some(1), Some(2)]);
    assert_eq!(node.forward("m".to_string(), t, Tag { id: 3, seq: 2 }, Some(incoming)), None);
    assert_eq!(node.buffer[0].meta.clone().unwrap().cl.vc, after_first);
    assert_eq!(node.buffer.len(), 1);
    assert_eq!(node.sn, 2);
}

#[test]
fn stale_forward_advances_the_forwarder() {
    let mut node = MergedNode::new(settings(1, 3, 10, Variant::SCD));
    node.scd_rxObsS[1] = 5;
    assert_eq!(node.forward("m".to_string(), Tag { id: 2, seq: 3 }, Tag { id: 3, seq: 7 }, None), None);
    assert_eq!(node.buffer.len(), 0);
    assert_eq!(node.scd_rxObsS, vec![0, 5, 7]);
}

#[test]
fn scd_delivers_majority_aware_records_in_buffer_order() {
    let mut node = MergedNode::new(settings(1, 3, 10, Variant::SCD));
    node.forward("a".to_string(), Tag { id: 2, seq: 1 }, Tag { id: 2, seq: 1 }, None);
    node.forward("b".to_string(), Tag { id: 3, seq: 1 }, Tag { id: 3, seq: 1 }, None);
    // Both clocks know two of three entries: both are candidates.
    let d = node.try_deliver();
    assert_eq!(d, vec![0, 1]);
    assert_eq!(node.delivered, vec![Delivery::Scd(vec!["a".to_string(), "b".to_string()])]);
    assert!(node.buffer[0].meta.clone().unwrap().delivered);
    // Nothing left to deliver.
    assert_eq!(node.try_deliver(), Vec::<usize>::new());
}

#[test]
fn counter_counts_delivered_operations() {
    let mut node = MergedNode::new(settings(1, 3, 10, Variant::COUNTER));
    node.counter_received(vec![
        "{\"PLUS\":1}".to_string(),
        "{\"PLUS\":2}".to_string(),
        "{\"MINUS\":3}".to_string(),
        "{\"OTHER\":3}".to_string(),
    ]);
    assert_eq!(node.read(), 1);
    node.scd_deliver(vec!["{\"MINUS\":1}".to_string(), "{\"MINUS\":1}".to_string()]);
    assert_eq!(node.read(), -1);
    assert!(node.delivered.is_empty());
}

#[test]
fn corrupted_counter_differs() {
    let mut node = MergedNode::new(settings(1, 3, 10, Variant::URB));
    node.corrupt_counter(0);
    assert_eq!(node.seq, 1);
    node.corrupt_counter(0);
    assert_eq!(node.seq, 0);
    node.corrupt_variables();
    assert_ne!(node.seq, 0);
    let mut s = MergedNode::new(settings(1, 3, 10, Variant::SCD));
    s.corrupt_counter(5);
    assert_eq!(s.sn, 6);
}

#[test]
fn duplicate_tags_wipe_the_buffer() {
    let mut node = MergedNode::new(settings(1, 3, 10, Variant::URB));
    assert_eq!(node.urb_broadcast("a".to_string()), StatusCode::OK);
    node.clean_buffer_if_corrupted();
    assert_eq!(node.buffer.len(), 1);
    node.buffer[0].msg = None;
    node.clean_buffer_if_corrupted();
    assert_eq!(node.buffer.len(), 0);
    assert!(node.illegally_triggered_ss);
}

#[test]
fn unknown_own_clock_entry_wipes_scd_buffer() {
    let mut node = MergedNode::new(settings(1, 3, 10, Variant::SCD));
    node.forward("a".to_string(), Tag { id: 2, seq: 1 }, Tag { id: 2, seq: 1 }, None);
    node.scd_clean_buffer_if_corrupted();
    assert_eq!(node.buffer.len(), 1);
    if let Some(m) = node.buffer[0].meta.as_mut() {
        m.cl.vc[0] = None;
    }
    node.scd_clean_buffer_if_corrupted();
    assert_eq!(node.buffer.len(), 0);
}

#[test]
fn lagging_rx_is_raised_within_a_window() {
    let mut node = MergedNode::new(settings(1, 3, 4, Variant::URB));
    node.update(Some(Payload::Text("x".to_string())), Tag { id: 2, seq: 20 }, 2, None, None);
    node.adjust_urb_rxObsS_and_next_to_deliver_if_corrupted();
    assert_eq!(node.urb_rxObsS, vec![0, 16, 0]);
    assert_eq!(node.next_to_deliver, vec![1, 17, 1]);
}

#[test]
fn scd_counter_out_of_range_is_reset() {
    let mut node = MergedNode::new(settings(1, 3, 10, Variant::SCD));
    node.sn = 40;
    node.reset_scd_txObsS_if_corrupted();
    assert_eq!(node.scd_txObsS, vec![39, 39, 39]);
    assert_eq!(node.scd_rxObsS, vec![39, 0, 0]);
    assert_eq!(node.min_scd_TxObsS(), 39);
}

#[test]
fn saved_numbers_and_space() {
    let mut node = MergedNode::new(settings(1, 3, 10, Variant::SCD));
    node.scd_broadcast("a".to_string());
    node.scd_broadcast("b".to_string());
    let mut s = node.saved(1);
    s.sort();
    assert_eq!(s, vec![1, 2]);
    assert_eq!(node.min_saved(1), Some(1));
    assert_eq!(node.min_saved(2), None);
    assert_eq!(node.scd_maxSeq(1), 2);
    assert!(node.scd_available_space());
    assert!(!node.scd_available_space_for(9));
}

#[test]
fn scd_candidate_waits_for_an_open_message() {
    let mut node = MergedNode::new(settings(1, 3, 10, Variant::SCD));
    // Own message: only this node's entry is known, so it is not majority aware.
    assert_eq!(node.scd_broadcast("b".to_string()).0, StatusCode::OK);
    // A peer's message, known in two entries, but below the open one in only one.
    node.forward("a".to_string(), Tag { id: 2, seq: 1 }, Tag { id: 2, seq: 1 }, None);
    assert_eq!(node.buffer[1].meta.clone().unwrap().cl.vc, vec![Some(2), Some(1), None]);
    assert_eq!(node.try_deliver(), Vec::<usize>::new());
    assert!(node.delivered.is_empty());
    assert!(!node.buffer[1].meta.clone().unwrap().delivered);
}

#[test]
fn recovery_round_restores_the_urb_invariants() {
    let mut node = MergedNode::new(settings(1, 3, 4, Variant::URB));
    assert_eq!(node.urb_broadcast("a".to_string()), StatusCode::OK);
    node.seq = 9000;
    node.update(Some(Payload::Text("x".to_string())), Tag { id: 3, seq: 50 }, 3, None, None);
    node.self_stabilizing_recovery();
    let ms = node.min_urb_TxObsS();
    assert!(ms <= node.seq && node.seq <= ms + 4);
    assert!(node.urb_rxObsS[2] + 4 >= 50);
}

#[test]
fn urb_and_scd_tags_of_a_record() {
    let mut node = MergedNode::new(settings(1, 3, 10, Variant::SCD));
    let (st, t) = node.scd_broadcast("a".to_string());
    assert_eq!(st, StatusCode::OK);
    let t = t.unwrap();
    assert_eq!(node.get_urb_tag(&t), None);
    node.handle_scd_records(false);
    let u = node.get_urb_tag(&t).unwrap();
    assert_eq!(u, Tag { id: 1, seq: 1 });
    assert_eq!(node.get_scd_tag(&u), Some(Tag { id: 1, seq: 1 }));
    assert_eq!(node.get_scd_tag(&Tag { id: 2, seq: 1 }), None);
    assert_eq!(node.buffer[0].meta.clone().unwrap().txDes, Some(u));
    assert_eq!(node.buffer[0].meta.clone().unwrap().transmission_counter, 1);
}

#[test]
fn safe_removal_compares_entrywise() {
    assert!(ss_broadcast::scd_gc::scd_safe_rm(&vec![3, 3, 3], &vec![1, 3, 2]));
    assert!(!ss_broadcast::scd_gc::scd_safe_rm(&vec![3, 3, 3], &vec![1, 4, 2]));
    assert!(!ss_broadcast::scd_gc::scd_safe_rm(&vec![3], &vec![1, 1]));
}

#[test]
fn trusted_minima_of_progress_vectors() {
    let mut node = MergedNode::new(settings(1, 3, 10, Variant::SCD));
    node.scd_rxObsS = vec![4, 2, 7];
    node.scd_txObsS = vec![5, 9, 6];
    assert_eq!(node.min_scd_RxObsS(), 2);
    assert_eq!(node.min_scd_TxObsS(), 5);
    assert_eq!(node.scd_ms(1), 5);
    assert_eq!(node.scd_ms(3), 7);
    node.scd_txSpace = vec![Some(1), Some(8), Some(3)];
    assert_eq!(node.scd_msp(), Some(3));
}

#[test]
fn lagging_scd_rx_is_raised() {
    let mut node = MergedNode::new(settings(1, 2, 3, Variant::SCD));
    node.forward("a".to_string(), Tag { id: 2, seq: 20 }, Tag { id: 2, seq: 20 }, None);
    node.adjust_scd_rxObsS_if_corrupted();
    assert_eq!(node.scd_rxObsS, vec![0, 14]);
}

#[test]
fn injected_faults_are_detected() {
    let mut node = MergedNode::new(settings(1, 3, 10, Variant::URB));
    node.urb_broadcast("a".to_string());
    node.duplicate_records();
    assert_eq!(node.buffer.len(), 2);
    assert_eq!(node.buffer[0].urb_tag, node.buffer[1].urb_tag);
    node.clean_buffer_if_corrupted();
    assert_eq!(node.buffer.len(), 0);
    node.urb_broadcast("b".to_string());
    node.modify_records();
    assert!(node.buffer[0].msg.is_none());
    let mut s = MergedNode::new(settings(1, 3, 10, Variant::SCD));
    s.scd_broadcast("c".to_string());
    s.modify_clocks();
    assert_eq!(s.buffer[0].meta.clone().unwrap().cl.vc, vec![None, None, None]);
    s.scd_clean_buffer_if_corrupted();
    assert!(s.buffer.is_empty());
}

#[test]
fn heartbeats_through_the_node() {
    let mut node = MergedNode::new(settings(1, 3, 10, Variant::URB));
    node.on_hb_hb(HbfdMessage { sender: 3 });
    assert_eq!(node.get_hb(), vec![0, 0, 1]);
    node.on_theta_hb(ThetafdMessage { sender: 2 });
    assert_eq!(node.theta.vector, vec![0, 0, 1]);
    node.fd_iter();
    // One trust heartbeat to every node, retransmission heartbeats to the two peers.
    assert_eq!(node.outbox.len(), 5);
    assert_eq!(node.get_hb(), vec![1, 0, 1]);
}

#[test]
fn urb_gossip_goes_to_every_peer() {
    let mut node = MergedNode::new(settings(2, 3, 10, Variant::URB));
    node.urb_txObsS = vec![0, 0, 0];
    node.urb_rxObsS = vec![1, 3, 2];
    node.gossip();
    assert_eq!(node.outbox.len(), 2);
    match &node.outbox[0] {
        (1, ss_broadcast::messages::WireMessage::Gossip(g)) => {
            assert_eq!(*g, GOSSIP { sender: 2, urb_maxSeq: 0, urb_rxObsS: 1, urb_txObsS: 0 });
        }
        _ => panic!("expected a summary for node 1"),
    }
    // Its own summary raised its own txObsS entry to its own rxObsS entry.
    assert_eq!(node.urb_txObsS, vec![0, 3, 0]);
}

#[test]
fn garbage_collection_drops_obsolete_peer_records() {
    let mut node = MergedNode::new(settings(1, 3, 10, Variant::URB));
    node.update(Some(Payload::Text("x".to_string())), Tag { id: 2, seq: 1 }, 2, None, None);
    node.update(Some(Payload::Text("y".to_string())), Tag { id: 2, seq: 2 }, 2, None, None);
    node.urb_rxObsS[1] = 1;
    node.remove_unreasonable_urb_records_from_buffer();
    assert_eq!(node.buffer.len(), 1);
    assert_eq!(node.buffer[0].urb_tag, Some(Tag { id: 2, seq: 2 }));
}

#[test]
fn obsolete_records_advance_rx() {
    let mut node = MergedNode::new(settings(1, 3, 10, Variant::URB));
    let all = bits(&[true, true, true]);
    node.update(Some(Payload::Text("x".to_string())), Tag { id: 2, seq: 1 }, 2, Some(all.clone()), None);
    node.update(Some(Payload::Text("y".to_string())), Tag { id: 2, seq: 2 }, 2, Some(all), None);
    node.advance_urb_rxObsS_based_on_obs_record();
    assert_eq!(node.urb_rxObsS, vec![0, 0, 0]);
    let d = node.handle_records_in_buffer(false);
    assert_eq!(d, vec![0, 1]);
    assert_eq!(node.next_to_deliver, vec![1, 3, 1]);
    node.advance_urb_rxObsS_based_on_obs_record();
    assert_eq!(node.urb_rxObsS, vec![0, 2, 0]);
}

#[test]
fn client_requests_are_parsed() {
    assert_eq!(parse_client_op("COUNTER_READ".to_string()), ClientOp::CounterRead);
    assert_eq!(parse_client_op("COUNTER_INCREASE".to_string()), ClientOp::CounterIncrease);
    assert_eq!(parse_client_op("COUNTER_DECREASE".to_string()), ClientOp::CounterDecrease);
    assert_eq!(parse_client_op("COUNTER".to_string()), ClientOp::Broadcast("COUNTER".to_string()));
}

#[test]
fn abort_only_when_configured() {
    let mut s = settings(1, 3, 10, Variant::URB);
    let mut node = MergedNode::new(s);
    node.seq = 500;
    node.reset_urb_txObsS_if_corrupted();
    assert!(!node.should_abort());
    s.abort_on_corruption = true;
    let mut strict = MergedNode::new(s);
    strict.seq = 500;
    strict.reset_urb_txObsS_if_corrupted();
    assert!(strict.should_abort());
}

#[test]
fn one_pass_delivers_records_held_out_of_order() {
    let mut node = MergedNode::new(settings(1, 3, 10, Variant::URB));
    let all = bits(&[true, true, true]);
    node.update(Some(Payload::Text("second".to_string())), Tag { id: 2, seq: 2 }, 2, Some(all.clone()), None);
    node.update(Some(Payload::Text("first".to_string())), Tag { id: 2, seq: 1 }, 2, Some(all), None);
    let d = node.handle_records_in_buffer(false);
    assert_eq!(d, vec![1, 0]);
    assert_eq!(node.next_to_deliver, vec![1, 3, 1]);
}

#[test]
fn resends_go_to_unacknowledging_peers_and_record_the_heartbeat() {
    let mut node = MergedNode::new(settings(1, 3, 10, Variant::URB));
    assert_eq!(node.urb_broadcast("a".to_string()), StatusCode::OK);
    node.on_hb_hb(HbfdMessage { sender: 2 });
    node.handle_records_in_buffer(false);
    // Nobody acknowledged yet: every node gets a copy.
    let targets: Vec<usize> = node.outbox.iter().map(|(k, _)| *k).collect();
    assert_eq!(targets, vec![1, 2, 3]);
    assert_eq!(node.buffer[0].prevHB, vec![Some(0), Some(1), Some(0)]);
    // No heartbeat moved since: nothing is sent again.
    node.outbox.clear();
    node.handle_records_in_buffer(false);
    assert!(node.outbox.is_empty());
    // A forced retransmission sends regardless.
    node.handle_records_in_buffer(true);
    assert_eq!(node.outbox.len(), 3);
}

#[test]
fn scd_record_every_trusted_node_moved_past_is_dropped() {
    let mut node = MergedNode::new(settings(1, 3, 10, Variant::SCD));
    let t = Tag { id: 2, seq: 1 };
    node.forward("a".to_string(), t, t, None);
    node.forward("a".to_string(), t, t, Some(VectorClock { vc: vec![Some(1), Some(1), Some(1)] }));
    assert_eq!(node.buffer[0].meta.clone().unwrap().cl.vc, vec![Some(1), Some(1), Some(1)]);
    // Still ahead of what node 3 observed: kept.
    node.remove_unreasonable_scd_records_from_buffer();
    assert_eq!(node.buffer.len(), 1);
    node.scd_rxObsS = vec![5, 5, 5];
    node.scd_txObsS = vec![5, 5, 5];
    node.remove_unreasonable_scd_records_from_buffer();
    assert!(node.buffer.is_empty());
}

#[test]
fn draining_stops_after_a_quiet_stretch_or_a_bound() {
    assert!(!ss_broadcast::driver::should_stop_draining(150, 150, 5));
    assert!(ss_broadcast::driver::should_stop_draining(201, 200, 5));
    assert!(!ss_broadcast::driver::should_stop_draining(5000, 0, 5));
    assert!(ss_broadcast::driver::should_stop_draining(5001, 0, 5));
    assert!(!ss_broadcast::driver::should_stop_draining(5001, 0, 2000));
    assert!(ss_broadcast::driver::should_stop_draining(8001, 0, 2000));
}

#[test]
fn fault_is_injected_once_after_its_tick() {
    assert!(!ss_broadcast::driver::fault_due(200, 2, true, false));
    assert!(ss_broadcast::driver::fault_due(201, 2, true, false));
    assert!(!ss_broadcast::driver::fault_due(201, 2, true, true));
    assert!(!ss_broadcast::driver::fault_due(201, 2, false, false));
}

#[test]
fn scd_collection_keeps_records_the_urb_layer_needs() {
    let mut node = MergedNode::new(settings(1, 3, 10, Variant::SCD));
    let t = Tag { id: 2, seq: 1 };
    node.forward("a".to_string(), t, t, Some(VectorClock { vc: vec![Some(1), Some(1), Some(1)] }));
    node.forward("a".to_string(), t, t, Some(VectorClock { vc: vec![Some(1), Some(1), Some(1)] }));
    node.buffer[0].urb_tag = Some(Tag { id: 1, seq: 1 });
    node.buffer[0].urb_needed = true;
    node.scd_rxObsS = vec![5, 5, 5];
    node.scd_txObsS = vec![5, 5, 5];
    node.remove_unreasonable_scd_records_from_buffer();
    assert_eq!(node.buffer.len(), 1);
    assert!(!node.buffer[0].scd_needed);
    node.buffer[0].urb_needed = false;
    node.remove_unreasonable_scd_records_from_buffer();
    assert!(node.buffer.is_empty());
}
