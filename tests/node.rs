use std::collections::HashMap;

use glomers::node::GOSSIP_INTERVAL_MS;
use glomers::tracker::{DatumStatus, TrackerError};
use glomers::{Body, BroadcastMessages, BroadcastNode, Message, PartialNode};

fn node(id: &str, n: u32) -> BroadcastNode {
    let peers = (0..n).map(|i| format!("n{}", i)).collect();
    BroadcastNode::new(PartialNode { id: id.to_string(), peers, msg_id: 1 }).expect("valid handshake")
}

fn envelope(src: &str, dst: &str, msg_id: Option<usize>, msg: BroadcastMessages) -> Message<BroadcastMessages> {
    Message {
        src: src.to_string(),
        dst: dst.to_string(),
        body: Body { msg_id, in_reply_to: None, msg },
    }
}

fn gossip(need: Vec<usize>, received: Vec<usize>) -> BroadcastMessages {
    BroadcastMessages::Gossip { data_you_need: need, data_i_received_from_you: received }
}

#[test]
fn response_swaps_source_and_destination() {
    let m = envelope("c1", "n0", Some(4), BroadcastMessages::Read);
    let r = m.response(Body { msg_id: Some(9), in_reply_to: Some(4), msg: BroadcastMessages::BroadcastOk });
    assert_eq!(r.src, "n0");
    assert_eq!(r.dst, "c1");
    assert_eq!(r.body.msg_id, Some(9));
    assert_eq!(r.body.in_reply_to, Some(4));
    assert!(matches!(r.body.msg, BroadcastMessages::BroadcastOk));
}

#[test]
fn handshake_with_bad_identifier_fails() {
    let r = BroadcastNode::new(PartialNode { id: "zz".to_string(), peers: vec!["n0".to_string()], msg_id: 0 });
    assert!(r.is_none());
}

#[test]
fn gossip_interval_is_a_quarter_second() {
    assert_eq!(node("n0", 5).bg_task_interval_ms(), 250);
    assert_eq!(GOSSIP_INTERVAL_MS, 250);
}

#[test]
fn broadcast_read_gossip_confirm_scenario() {
    let mut n0 = node("n0", 5);
    let r = n0.handle_msg(envelope("c1", "n0", Some(10), BroadcastMessages::Broadcast { message: 42 }));
    let m = r.unwrap().unwrap();
    assert!(matches!(m.body.msg, BroadcastMessages::BroadcastOk));
    assert_eq!((m.src.as_str(), m.dst.as_str()), ("n0", "c1"));
    assert_eq!(m.body.in_reply_to, Some(10));
    assert_eq!(m.body.msg_id, Some(1));

    let m = n0.handle_msg(envelope("c1", "n0", Some(11), BroadcastMessages::Read)).unwrap().unwrap();
    match m.body.msg {
        BroadcastMessages::ReadOk { messages } => assert_eq!(messages, vec![42]),
        _ => panic!("expected read_ok"),
    }
    assert_eq!(m.body.msg_id, Some(2));

    let out = n0.bg_task();
    assert_eq!(out.len(), 2);
    let dests: Vec<&str> = out.iter().map(|m| m.dst.as_str()).collect();
    assert_eq!(dests, vec!["n1", "n4"]);
    for (k, m) in out.iter().enumerate() {
        assert_eq!(m.src, "n0");
        assert_eq!(m.body.msg_id, Some(3 + k));
        assert_eq!(m.body.in_reply_to, None);
        match &m.body.msg {
            BroadcastMessages::Gossip { data_you_need, data_i_received_from_you } => {
                assert_eq!(data_you_need, &vec![42]);
                assert!(data_i_received_from_you.is_empty());
            }
            _ => panic!("expected gossip"),
        }
    }
    assert_eq!(n0.msg_id, 5);

    let r = n0.handle_msg(envelope("n1", "n0", None, gossip(vec![], vec![42])));
    assert!(matches!(r, Ok(None)));
    let i = n0.tracker.peer_position(&"n1".to_string()).unwrap();
    assert_eq!(n0.tracker.status(i, 42), Some(DatumStatus::Confirmed));
    let j = n0.tracker.peer_position(&"n4".to_string()).unwrap();
    assert_eq!(n0.tracker.status(j, 42), Some(DatumStatus::SentUnconfirmed));
}

#[test]
fn empty_gossip_is_still_sent_every_tick() {
    let mut n3 = node("n3", 5);
    for _ in 0..3 {
        let out = n3.bg_task();
        assert_eq!(out.len(), 2);
        for m in &out {
            match &m.body.msg {
                BroadcastMessages::Gossip { data_you_need, data_i_received_from_you } => {
                    assert!(data_you_need.is_empty() && data_i_received_from_you.is_empty());
                }
                _ => panic!("expected gossip"),
            }
        }
    }
}

#[test]
fn unconfirmed_data_is_resent_until_confirmed() {
    let mut n1 = node("n1", 5);
    n1.handle_msg(envelope("c1", "n1", Some(1), BroadcastMessages::Broadcast { message: 5 })).unwrap();
    for _ in 0..2 {
        for m in n1.bg_task() {
            match m.body.msg {
                BroadcastMessages::Gossip { data_you_need, .. } => assert_eq!(data_you_need, vec![5]),
                _ => panic!("expected gossip"),
            }
        }
    }
}

#[test]
fn learned_data_is_acknowledged_to_its_sender() {
    let mut n1 = node("n1", 5);
    let r = n1.handle_msg(envelope("n2", "n1", None, gossip(vec![8], vec![])));
    assert!(matches!(r, Ok(None)));
    let out = n1.bg_task();
    for m in out {
        match m.body.msg {
            BroadcastMessages::Gossip { data_you_need, data_i_received_from_you } => {
                if m.dst == "n2" {
                    assert!(data_you_need.is_empty());
                    assert_eq!(data_i_received_from_you, vec![8]);
                } else {
                    assert_eq!(data_you_need, vec![8]);
                    assert!(data_i_received_from_you.is_empty());
                }
            }
            _ => panic!("expected gossip"),
        }
    }
}

#[test]
fn topology_proposal_is_acknowledged_and_ignored() {
    let mut n0 = node("n0", 5);
    let mut topo = HashMap::new();
    topo.insert("n0".to_string(), vec!["n2".to_string(), "n3".to_string()]);
    let m = n0.handle_msg(envelope("c1", "n0", Some(3), BroadcastMessages::Topology { topology: topo }));
    let m = m.unwrap().unwrap();
    assert!(matches!(m.body.msg, BroadcastMessages::TopologyOk));
    assert_eq!(m.body.in_reply_to, Some(3));
    assert_eq!(n0.tracker.peer_count(), 2);
    assert_eq!(n0.tracker.peer_position(&"n2".to_string()), None);
}

#[test]
fn replies_are_not_answered() {
    let mut n0 = node("n0", 5);
    assert!(matches!(n0.handle_msg(envelope("c1", "n0", None, BroadcastMessages::BroadcastOk)), Ok(None)));
    assert!(matches!(n0.handle_msg(envelope("c1", "n0", None, BroadcastMessages::TopologyOk)), Ok(None)));
    assert!(matches!(
        n0.handle_msg(envelope("c1", "n0", None, BroadcastMessages::ReadOk { messages: vec![1] })),
        Ok(None)
    ));
    assert_eq!(n0.msg_id, 1);
}

#[test]
fn confirmation_of_unknown_datum_is_a_protocol_violation() {
    let mut n0 = node("n0", 5);
    let r = n0.handle_msg(envelope("n1", "n0", None, gossip(vec![], vec![77])));
    assert!(matches!(r, Err(TrackerError::UntrackedConfirmation)));
}

#[test]
fn gossip_from_outside_the_topology_leaves_the_peers_fixed() {
    let mut n0 = node("n0", 5);
    let r = n0.handle_msg(envelope("n2", "n0", None, gossip(vec![6], vec![])));
    assert!(matches!(r, Ok(None)));
    assert_eq!(n0.tracker.peer_count(), 2);
    let out = n0.bg_task();
    let dests: Vec<&str> = out.iter().map(|m| m.dst.as_str()).collect();
    assert_eq!(dests, vec!["n1", "n4"]);
    for m in out {
        match m.body.msg {
            BroadcastMessages::Gossip { data_you_need, .. } => assert_eq!(data_you_need, vec![6]),
            _ => panic!("expected gossip"),
        }
    }
}
