use dag_driver::{CertifiedNode, CertifiedNodeAck, CertifiedNodeRequest, DagDriver, MissingDagNodeData, Parent};

const ME: u64 = 100;
const PEER_1: u64 = 1;
const PEER_2: u64 = 2;
const PEER_3: u64 = 3;
const DIGEST_A: u64 = 0xA;
const DIGEST_B: u64 = 0xB;
const DIGEST_C: u64 = 0xC;

fn node(source: u64, round: u64, digest: u64, parents: &[(u64, u64)]) -> CertifiedNode {
    let parents = parents.iter().map(|&(peer, digest)| Parent { peer, digest }).collect();
    CertifiedNode::new(source, round, digest, parents)
}

fn node_a() -> CertifiedNode {
    node(PEER_1, 1, DIGEST_A, &[])
}

fn node_b() -> CertifiedNode {
    node(PEER_2, 2, DIGEST_B, &[(PEER_1, DIGEST_A)])
}

fn node_c() -> CertifiedNode {
    node(PEER_3, 3, DIGEST_C, &[(PEER_2, DIGEST_B)])
}

fn dag_digest(d: &DagDriver, round: u64, source: u64) -> Option<u64> {
    d.dag().get(round, source).map(|n| n.digest)
}

#[test]
fn in_order_acceptance() {
    let mut d = DagDriver::new(ME);
    let ack_a = d.handle_certified_node(node_a(), true).unwrap();
    assert_eq!(ack_a.ack, CertifiedNodeAck::new(DIGEST_A, ME));
    assert_eq!(ack_a.recipient, PEER_1);
    let ack_b = d.handle_certified_node(node_b(), true).unwrap();
    assert_eq!(ack_b.ack, CertifiedNodeAck::new(DIGEST_B, ME));
    assert_eq!(ack_b.recipient, PEER_2);
    assert_eq!(dag_digest(&d, 1, PEER_1), Some(DIGEST_A));
    assert_eq!(dag_digest(&d, 2, PEER_2), Some(DIGEST_B));
    assert_eq!(d.pending_len(), 0);
    assert_eq!(d.missing_len(), 0);
}

#[test]
fn no_ack_when_not_required() {
    let mut d = DagDriver::new(ME);
    assert!(d.handle_certified_node(node_a(), false).is_none());
    assert_eq!(dag_digest(&d, 1, PEER_1), Some(DIGEST_A));
}

#[test]
fn out_of_order_with_one_gap() {
    let mut d = DagDriver::new(ME);
    d.handle_certified_node(node_b(), true);
    assert_eq!(d.dag().len(), 1);
    assert_eq!(d.pending_len(), 1);
    assert_eq!(d.pending_missing_parents(DIGEST_B), Some(vec![DIGEST_A]));
    assert_eq!(d.missing_len(), 1);
    let entry = d.missing_entry(DIGEST_A).unwrap();
    assert_eq!(entry.node_source(), PEER_1);
    assert_eq!(entry.node_round(), 1);
    assert!(entry.need_to_send_request());
    assert_eq!(entry.peers_to_request(), vec![PEER_2]);

    d.handle_certified_node(node_a(), true);
    assert_eq!(dag_digest(&d, 1, PEER_1), Some(DIGEST_A));
    assert_eq!(dag_digest(&d, 2, PEER_2), Some(DIGEST_B));
    assert_eq!(d.pending_len(), 0);
    assert_eq!(d.missing_len(), 0);
}

#[test]
fn chained_promotion() {
    let mut d = DagDriver::new(ME);
    d.handle_certified_node(node_c(), false);
    assert_eq!(d.pending_len(), 1);
    assert_eq!(d.missing_len(), 1);
    assert!(d.missing_entry(DIGEST_B).unwrap().need_to_send_request());

    d.handle_certified_node(node_b(), false);
    assert_eq!(d.pending_len(), 2);
    assert_eq!(d.missing_len(), 2);
    // B is held as pending now: it is no longer fetched.
    assert!(!d.missing_entry(DIGEST_B).unwrap().need_to_send_request());
    assert_eq!(d.missing_entry(DIGEST_B).unwrap().peers_to_request(), vec![PEER_3]);
    let requests = d.remote_fetch_missing_nodes();
    assert_eq!(requests.len(), 1);
    assert_eq!(requests[0].request.digest, DIGEST_A);
    let entry_a = d.missing_entry(DIGEST_A).unwrap();
    assert!(entry_a.need_to_send_request());
    assert_eq!(entry_a.peers_to_request(), vec![PEER_2]);

    d.handle_certified_node(node_a(), false);
    assert_eq!(dag_digest(&d, 1, PEER_1), Some(DIGEST_A));
    assert_eq!(dag_digest(&d, 2, PEER_2), Some(DIGEST_B));
    assert_eq!(dag_digest(&d, 3, PEER_3), Some(DIGEST_C));
    assert_eq!(d.dag().len(), 4);
    assert_eq!(d.pending_len(), 0);
    assert_eq!(d.missing_len(), 0);
}

#[test]
fn peer_hint_reaches_fetchable_ancestor_through_pending_parent() {
    let mut d = DagDriver::new(ME);
    d.handle_certified_node(node_b(), false);
    // D waits on B, which is pending and waits on A: PEER_3 becomes a peer for A.
    d.handle_certified_node(node(PEER_3, 3, 0xD, &[(PEER_2, DIGEST_B)]), false);
    let entry_b = d.missing_entry(DIGEST_B).unwrap();
    assert!(!entry_b.need_to_send_request());
    assert_eq!(entry_b.peers_to_request(), vec![PEER_3]);
    assert_eq!(d.missing_entry(DIGEST_A).unwrap().peers_to_request(), vec![PEER_2, PEER_3]);
    let requests = d.remote_fetch_missing_nodes();
    assert_eq!(requests.len(), 1);
    assert_eq!(requests[0].request.digest, DIGEST_A);
    assert_eq!(requests[0].peers, vec![PEER_2, PEER_3]);
}

#[test]
fn retry_tick_repeats_request() {
    let mut d = DagDriver::new(ME);
    d.handle_certified_node(node_b(), true);
    for _ in 0..2 {
        let requests = d.remote_fetch_missing_nodes();
        assert_eq!(requests.len(), 1);
        assert_eq!(requests[0].request, CertifiedNodeRequest::new(PEER_1, 1, DIGEST_A, ME));
        assert_eq!(requests[0].peers, vec![PEER_2]);
    }
}

#[test]
fn no_requests_when_nothing_missing() {
    let mut d = DagDriver::new(ME);
    assert!(d.remote_fetch_missing_nodes().is_empty());
    d.handle_certified_node(node_a(), false);
    assert!(d.remote_fetch_missing_nodes().is_empty());
}

#[test]
fn fetch_response() {
    let mut d = DagDriver::new(ME);
    d.handle_certified_node(node_b(), true);
    d.handle_certified_node(node_a(), true);
    let response = d.handle_node_request(CertifiedNodeRequest::new(PEER_1, 1, DIGEST_A, PEER_3)).unwrap();
    assert_eq!(response.node.digest, DIGEST_A);
    assert_eq!(response.node.source, PEER_1);
    assert_eq!(response.node.round, 1);
    assert_eq!(response.recipient, PEER_3);
    assert!(!response.ack_required);
}

#[test]
fn fetch_response_carries_parents() {
    let mut d = DagDriver::new(ME);
    d.handle_certified_node(node_a(), false);
    d.handle_certified_node(node_b(), false);
    let response = d.handle_node_request(CertifiedNodeRequest::new(PEER_2, 2, DIGEST_B, PEER_3)).unwrap();
    assert_eq!(response.node.parents, vec![Parent { peer: PEER_1, digest: DIGEST_A }]);
}

#[test]
fn serving_same_request_twice_is_identical() {
    let mut d = DagDriver::new(ME);
    d.handle_certified_node(node_a(), false);
    let req = CertifiedNodeRequest::new(PEER_1, 1, DIGEST_A, PEER_3);
    let first = d.handle_node_request(req).unwrap();
    let second = d.handle_node_request(req).unwrap();
    assert_eq!(first.node.digest, second.node.digest);
    assert_eq!(first.node.source, second.node.source);
    assert_eq!(first.node.round, second.node.round);
    assert_eq!(first.node.parents, second.node.parents);
    assert_eq!(first.recipient, second.recipient);
    assert_eq!(first.ack_required, second.ack_required);
}

#[test]
fn digest_mismatch_request() {
    let mut d = DagDriver::new(ME);
    d.handle_certified_node(node_a(), false);
    assert!(d.handle_node_request(CertifiedNodeRequest::new(PEER_1, 1, 0xFF, PEER_3)).is_none());
    assert_eq!(dag_digest(&d, 1, PEER_1), Some(DIGEST_A));
    assert_eq!(d.pending_len(), 0);
    assert_eq!(d.missing_len(), 0);
}

#[test]
fn request_beyond_dag_or_empty_slot() {
    let mut d = DagDriver::new(ME);
    d.handle_certified_node(node_a(), false);
    assert!(d.handle_node_request(CertifiedNodeRequest::new(PEER_1, 7, DIGEST_A, PEER_3)).is_none());
    assert!(d.handle_node_request(CertifiedNodeRequest::new(PEER_2, 1, DIGEST_A, PEER_3)).is_none());
}

#[test]
fn duplicate_delivery_changes_nothing() {
    let mut d = DagDriver::new(ME);
    d.handle_certified_node(node_b(), true);
    let ack = d.handle_certified_node(node_b(), true).unwrap();
    assert_eq!(ack.ack, CertifiedNodeAck::new(DIGEST_B, ME));
    assert_eq!(d.pending_len(), 1);
    assert_eq!(d.missing_len(), 1);
    assert_eq!(d.missing_entry(DIGEST_A).unwrap().peers_to_request(), vec![PEER_2]);

    d.handle_certified_node(node_a(), true);
    d.handle_certified_node(node_a(), true);
    assert_eq!(d.dag().len(), 3);
    assert_eq!(dag_digest(&d, 1, PEER_1), Some(DIGEST_A));
    assert_eq!(d.pending_len(), 0);
}

#[test]
fn equivocating_node_for_taken_slot_is_dropped() {
    let mut d = DagDriver::new(ME);
    d.handle_certified_node(node_a(), false);
    let ack = d.handle_certified_node(node(PEER_1, 1, 0xEE, &[]), true);
    assert_eq!(ack.unwrap().ack.digest, 0xEE);
    assert_eq!(dag_digest(&d, 1, PEER_1), Some(DIGEST_A));
}

#[test]
fn genesis_adjacent_adds_immediately() {
    let mut d = DagDriver::new(ME);
    d.handle_certified_node(node(PEER_2, 1, 0x21, &[]), false);
    assert_eq!(dag_digest(&d, 1, PEER_2), Some(0x21));
    assert_eq!(d.missing_len(), 0);
    assert_eq!(d.pending_len(), 0);
}

#[test]
fn round_zero_is_rejected() {
    let mut d = DagDriver::new(ME);
    let ack = d.handle_certified_node(node(PEER_1, 0, 0x01, &[]), true);
    assert!(ack.is_some());
    assert_eq!(d.dag().len(), 1);
    assert!(!d.dag().contains(0, PEER_1));
    assert_eq!(d.pending_len(), 0);
}

#[test]
fn parentless_node_above_reach_is_dropped() {
    let mut d = DagDriver::new(ME);
    d.handle_certified_node(node(PEER_1, 5, 0x05, &[]), false);
    assert_eq!(d.dag().len(), 1);
    assert_eq!(d.pending_len(), 0);
    assert_eq!(d.missing_len(), 0);
}

#[test]
fn repeated_parent_digest_counts_once() {
    let mut d = DagDriver::new(ME);
    d.handle_certified_node(node(PEER_2, 2, DIGEST_B, &[(PEER_1, DIGEST_A), (PEER_3, DIGEST_A)]), false);
    assert_eq!(d.pending_missing_parents(DIGEST_B), Some(vec![DIGEST_A]));
    d.handle_certified_node(node_a(), false);
    assert_eq!(dag_digest(&d, 2, PEER_2), Some(DIGEST_B));
}

#[test]
fn round_digests_of_dag() {
    let mut d = DagDriver::new(ME);
    assert_eq!(d.dag().round_digests(0), Some(vec![]));
    assert_eq!(d.dag().round_digests(1), None);
    d.handle_certified_node(node_a(), false);
    d.handle_certified_node(node(PEER_2, 1, 0x21, &[]), false);
    assert_eq!(d.dag().round_digests(1), Some(vec![DIGEST_A, 0x21]));
}

fn final_dag(order: &[usize]) -> Vec<(u64, u64, u64)> {
    let nodes = [
        node(PEER_1, 1, DIGEST_A, &[]),
        node(PEER_2, 1, 0x21, &[]),
        node(PEER_1, 2, DIGEST_B, &[(PEER_1, DIGEST_A), (PEER_2, 0x21)]),
        node(PEER_2, 2, 0x22, &[(PEER_2, 0x21)]),
        node(PEER_3, 3, DIGEST_C, &[(PEER_1, DIGEST_B), (PEER_2, 0x22)]),
    ];
    let mut d = DagDriver::new(ME);
    for &i in order {
        let n = &nodes[i];
        d.handle_certified_node(n.duplicate(), false);
    }
    assert_eq!(d.pending_len(), 0);
    assert_eq!(d.missing_len(), 0);
    let mut contents = vec![];
    for round in 0..d.dag().len() as u64 {
        for source in [PEER_1, PEER_2, PEER_3] {
            if let Some(n) = d.dag().get(round, source) {
                contents.push((round, source, n.digest));
            }
        }
    }
    contents
}

#[test]
fn all_arrival_orders_give_same_dag() {
    let expected = final_dag(&[0, 1, 2, 3, 4]);
    assert_eq!(expected.len(), 5);
    let mut order = [0usize, 1, 2, 3, 4];
    // every permutation of five nodes, by Heap's algorithm
    let mut c = [0usize; 5];
    assert_eq!(final_dag(&order), expected);
    let mut i = 0;
    let mut count = 1;
    while i < 5 {
        if c[i] < i {
            if i % 2 == 0 {
                order.swap(0, i);
            } else {
                order.swap(c[i], i);
            }
            assert_eq!(final_dag(&order), expected);
            count += 1;
            c[i] += 1;
            i = 0;
        } else {
            c[i] = 0;
            i += 1;
        }
    }
    assert_eq!(count, 120);
}

#[test]
fn missing_node_data_bookkeeping() {
    let mut m = MissingDagNodeData::new(PEER_1, 4, true);
    assert_eq!(m.node_source(), PEER_1);
    assert_eq!(m.node_round(), 4);
    assert!(m.need_to_send_request());
    m.add_peer(PEER_2);
    m.add_peer(PEER_3);
    m.add_peer(PEER_2);
    assert_eq!(m.peers_to_request(), vec![PEER_2, PEER_3]);
    m.add_dependency(DIGEST_B);
    m.add_dependency(DIGEST_B);
    m.add_dependency(DIGEST_C);
    m.disable_requests();
    assert!(!m.need_to_send_request());
    assert_eq!(m.take_dependencies(), vec![DIGEST_B, DIGEST_C]);
}

#[test]
fn duplicate_copies_node() {
    let a = node_b();
    let b = a.duplicate();
    assert_eq!(b.source, a.source);
    assert_eq!(b.round, a.round);
    assert_eq!(b.digest, a.digest);
    assert_eq!(b.parents, a.parents);
}

#[test]
fn missing_entries_name_their_dependents() {
    let mut d = DagDriver::new(ME);
    d.handle_certified_node(node_c(), false);
    d.handle_certified_node(node(PEER_1, 3, 0xD, &[(PEER_2, DIGEST_B)]), false);
    d.handle_certified_node(node_b(), false);
    assert_eq!(d.missing_entry(DIGEST_B).unwrap().dependencies(), vec![DIGEST_C, 0xD]);
    assert_eq!(d.missing_entry(DIGEST_A).unwrap().dependencies(), vec![DIGEST_B]);
    assert_eq!(d.pending_missing_parents(DIGEST_C), Some(vec![DIGEST_B]));
    assert_eq!(d.pending_missing_parents(0xD), Some(vec![DIGEST_B]));
}

#[test]
fn parents_of_dag_nodes_are_in_round_below() {
    let mut d = DagDriver::new(ME);
    d.handle_certified_node(node_c(), false);
    d.handle_certified_node(node_b(), false);
    d.handle_certified_node(node_a(), false);
    for round in 1..d.dag().len() as u64 {
        let below = d.dag().round_digests(round - 1).unwrap();
        for source in [PEER_1, PEER_2, PEER_3] {
            if let Some(n) = d.dag().get(round, source) {
                assert_eq!(n.round, round);
                for p in &n.parents {
                    assert!(below.contains(&p.digest));
                }
            }
        }
    }
}

#[test]
fn node_whose_parent_sits_in_another_round_stays_pending() {
    let mut d = DagDriver::new(ME);
    d.handle_certified_node(node_a(), false);
    // claims A as a parent from round 2, but A is in round 1
    d.handle_certified_node(node(PEER_2, 3, 0x33, &[(PEER_1, DIGEST_A)]), false);
    assert_eq!(d.pending_len(), 1);
    assert!(d.missing_entry(DIGEST_A).unwrap().need_to_send_request());
    assert!(d.dag().get(3, PEER_2).is_none());
}

#[test]
fn ready_nodes_competing_for_one_slot() {
    let mut d = DagDriver::new(ME);
    d.handle_certified_node(node_b(), false);
    d.handle_certified_node(node(PEER_2, 2, 0xBB, &[(PEER_1, DIGEST_A)]), false);
    d.handle_certified_node(node(PEER_3, 3, 0x3B, &[(PEER_2, 0xBB)]), false);
    assert_eq!(d.pending_len(), 3);
    d.handle_certified_node(node_a(), false);
    // the first of the two nodes for slot (2, PEER_2) takes it; the other is blocked
    assert_eq!(dag_digest(&d, 2, PEER_2), Some(DIGEST_B));
    assert!(d.pending_missing_parents(DIGEST_B).is_none());
    assert!(d.pending_missing_parents(0xBB).is_none());
    // the node waiting on the blocked one still waits
    assert_eq!(d.pending_missing_parents(0x3B), Some(vec![0xBB]));
    assert!(!d.missing_entry(0xBB).unwrap().need_to_send_request());
}
