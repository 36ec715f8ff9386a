use ss_broadcast::messages::WireMessage;
use ss_broadcast::node::{Delivery, MergedNode, Settings};
use ss_broadcast::types::{StatusCode, Tag, Variant};

fn settings(id: usize, n: usize, window: u64, theta_w: u64, variant: Variant) -> Settings {
    Settings {
        node_id: id,
        number_of_nodes: n,
        window_size: window,
        delta: 5,
        theta_w,
        variant,
        is_failing_node: false,
        abort_on_corruption: false,
    }
}

fn cluster(n: usize, window: u64, theta_w: u64, variant: Variant) -> Vec<MergedNode> {
    (1..=n).map(|id| MergedNode::new(settings(id, n, window, theta_w, variant))).collect()
}

/// Runs `ticks` rounds; messages sent by a node in `silent` are lost.
fn run(nodes: &mut Vec<MergedNode>, inboxes: &mut Vec<Vec<WireMessage>>, ticks: usize, silent: &[usize]) {
    let n = nodes.len();
    for t in 0..ticks {
        for i in 0..n {
            let inbox = std::mem::take(&mut inboxes[i]);
            if silent.contains(&(i + 1)) {
                continue;
            }
            nodes[i].bare_bone_loop_iter(t % 5 == 0, inbox);
            let out = std::mem::take(&mut nodes[i].outbox);
            for (to, m) in out {
                inboxes[to - 1].push(m);
            }
        }
    }
}

fn urb_delivered(node: &MergedNode) -> Vec<(Tag, String)> {
    node.delivered
        .iter()
        .filter_map(|d| match d {
            Delivery::Urb(t, s) => Some((*t, s.clone())),
            _ => None,
        })
        .collect()
}

fn scd_delivered(node: &MergedNode) -> Vec<String> {
    node.delivered
        .iter()
        .flat_map(|d| match d {
            Delivery::Scd(v) => v.clone(),
            _ => Vec::new(),
        })
        .collect()
}

#[test]
fn scenario_a_all_nodes_deliver_the_broadcast() {
    let mut nodes = cluster(3, 10, 50, Variant::URB);
    let mut inboxes: Vec<Vec<WireMessage>> = vec![Vec::new(); 3];
    assert_eq!(nodes[0].urb_broadcast("hello".to_string()), StatusCode::OK);
    run(&mut nodes, &mut inboxes, 60, &[]);
    for node in &nodes {
        let d = urb_delivered(node);
        assert_eq!(d, vec![(Tag { id: 1, seq: 1 }, "hello".to_string())]);
        assert!(node.urb_rxObsS[0] >= 1);
    }
}

#[test]
fn urb_deliveries_keep_sender_order() {
    let mut nodes = cluster(3, 10, 50, Variant::URB);
    let mut inboxes: Vec<Vec<WireMessage>> = vec![Vec::new(); 3];
    for k in 0..4 {
        assert_eq!(nodes[1].urb_broadcast(format!("m{}", k)), StatusCode::OK);
    }
    run(&mut nodes, &mut inboxes, 80, &[]);
    for node in &nodes {
        let d = urb_delivered(node);
        let seqs: Vec<u64> = d.iter().map(|(t, _)| t.seq).collect();
        assert_eq!(seqs, vec![1, 2, 3, 4]);
        assert_eq!(d[2].1, "m2");
    }
}

#[test]
fn scenario_b_untrusted_node_does_not_block_delivery() {
    let mut nodes = cluster(3, 10, 6, Variant::URB);
    let mut inboxes: Vec<Vec<WireMessage>> = vec![Vec::new(); 3];
    assert_eq!(nodes[1].urb_broadcast("from two".to_string()), StatusCode::OK);
    run(&mut nodes, &mut inboxes, 1, &[]);
    run(&mut nodes, &mut inboxes, 80, &[2]);
    let t = nodes[0].trusted();
    assert_eq!(t.get(1), Some(false));
    assert_eq!(t.get(2), Some(true));
    for i in [0usize, 2] {
        assert_eq!(urb_delivered(&nodes[i]), vec![(Tag { id: 2, seq: 1 }, "from two".to_string())]);
    }
    assert_eq!(nodes[0].urb_broadcast("from one".to_string()), StatusCode::OK);
    run(&mut nodes, &mut inboxes, 60, &[2]);
    assert!(urb_delivered(&nodes[2]).contains(&(Tag { id: 1, seq: 1 }, "from one".to_string())));
}

#[test]
fn scenario_c_out_of_range_sequence_is_reset() {
    let mut node = MergedNode::new(settings(1, 3, 10, 50, Variant::URB));
    node.seq = 500;
    assert_eq!(node.min_urb_TxObsS(), 0);
    node.reset_urb_txObsS_if_corrupted();
    assert_eq!(node.urb_txObsS, vec![500, 500, 500]);
    assert_eq!(node.min_urb_TxObsS(), 500);
    assert!(node.illegally_triggered_ss);
    // Back in range and complete: nothing more changes.
    node.illegally_triggered_ss = false;
    node.reset_urb_txObsS_if_corrupted();
    assert!(!node.illegally_triggered_ss);
    assert_eq!(node.urb_txObsS, vec![500, 500, 500]);
}

#[test]
fn scenario_c_missing_own_record_resets() {
    let mut node = MergedNode::new(settings(1, 3, 10, 50, Variant::URB));
    node.seq = 3;
    node.reset_urb_txObsS_if_corrupted();
    assert_eq!(node.urb_txObsS, vec![3, 3, 3]);
}

#[test]
fn scenario_d_full_scd_window_is_refused() {
    let mut node = MergedNode::new(settings(1, 3, 2, 50, Variant::SCD));
    assert_eq!(node.scd_broadcast("a".to_string()), (StatusCode::OK, Some(Tag { id: 1, seq: 1 })));
    assert_eq!(node.scd_broadcast("b".to_string()), (StatusCode::OK, Some(Tag { id: 1, seq: 2 })));
    let len = node.buffer.len();
    assert_eq!(node.scd_broadcast("c".to_string()), (StatusCode::ErrNoSpace, None));
    assert_eq!(node.buffer.len(), len);
    assert_eq!(node.sn, 3);
    assert_eq!(node.client_broadcast("c".to_string()), StatusCode::ErrNoSpace);
}

#[test]
fn scd_broadcast_is_delivered_everywhere() {
    let mut nodes = cluster(3, 10, 50, Variant::SCD);
    let mut inboxes: Vec<Vec<WireMessage>> = vec![Vec::new(); 3];
    assert_eq!(nodes[0].scd_broadcast("x".to_string()).0, StatusCode::OK);
    run(&mut nodes, &mut inboxes, 120, &[]);
    for node in &nodes {
        assert_eq!(scd_delivered(node), vec!["x".to_string()]);
    }
}

#[test]
fn scd_messages_of_two_senders_reach_every_node() {
    let mut nodes = cluster(3, 10, 50, Variant::SCD);
    let mut inboxes: Vec<Vec<WireMessage>> = vec![Vec::new(); 3];
    assert_eq!(nodes[0].scd_broadcast("one".to_string()).0, StatusCode::OK);
    assert_eq!(nodes[1].scd_broadcast("two".to_string()).0, StatusCode::OK);
    run(&mut nodes, &mut inboxes, 200, &[]);
    for node in &nodes {
        let mut d = scd_delivered(node);
        d.sort();
        assert_eq!(d, vec!["one".to_string(), "two".to_string()]);
    }
}

#[test]
fn counter_variant_counts_everywhere() {
    let mut nodes = cluster(3, 10, 50, Variant::COUNTER);
    let mut inboxes: Vec<Vec<WireMessage>> = vec![Vec::new(); 3];
    assert_eq!(nodes[0].client_broadcast("{\"PLUS\":1}".to_string()), StatusCode::OK);
    assert_eq!(nodes[2].client_broadcast("{\"PLUS\":3}".to_string()), StatusCode::OK);
    assert_eq!(nodes[1].client_broadcast("{\"MINUS\":2}".to_string()), StatusCode::OK);
    run(&mut nodes, &mut inboxes, 250, &[]);
    for node in &nodes {
        assert_eq!(node.read(), 1);
        assert!(node.delivered.is_empty());
    }
}
