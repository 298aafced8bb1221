use std::collections::HashSet;

use glomers::tracker::{set_members, DatumStatus, Tracker, TrackerError};

fn ids(v: &[&str]) -> Vec<String> {
    v.iter().map(|x| x.to_string()).collect()
}

fn sorted(mut v: Vec<usize>) -> Vec<usize> {
    v.sort();
    v
}

#[test]
fn record_local_is_idempotent() {
    let mut t = Tracker::new(ids(&["n1"]));
    t.record_local(5);
    t.record_local(5);
    assert_eq!(t.seen_list(), vec![5]);
    assert!(t.has_seen(5));
    assert!(!t.has_seen(6));
}

#[test]
fn gossip_with_known_data_changes_nothing() {
    let mut t = Tracker::new(ids(&["n1"]));
    t.record_local(1);
    t.record_local(2);
    assert_eq!(t.record_gossip(&"n1".to_string(), &vec![1, 2, 2], &vec![]), Ok(()));
    assert_eq!(sorted(t.seen_list()), vec![1, 2]);
    assert_eq!(t.status(0, 1), None);
    assert_eq!(t.status(0, 2), None);
}

#[test]
fn gossip_teaches_new_data_as_received_unconfirmed() {
    let mut t = Tracker::new(ids(&["n1", "n2"]));
    assert_eq!(t.record_gossip(&"n2".to_string(), &vec![7, 8], &vec![]), Ok(()));
    assert_eq!(sorted(t.seen_list()), vec![7, 8]);
    assert_eq!(t.status(1, 7), Some(DatumStatus::ReceivedUnconfirmed));
    assert_eq!(t.status(0, 7), None);
    let (need, received) = t.deltas(1);
    assert!(need.is_empty());
    assert_eq!(sorted(received), vec![7, 8]);
}

#[test]
fn backfill_tracks_every_seen_datum_for_every_peer() {
    let mut t = Tracker::new(ids(&["n1", "n2"]));
    t.record_local(3);
    t.record_local(4);
    t.backfill();
    for i in 0..2 {
        assert_eq!(t.status(i, 3), Some(DatumStatus::SentUnconfirmed));
        let (need, received) = t.deltas(i);
        assert_eq!(sorted(need), vec![3, 4]);
        assert!(received.is_empty());
    }
}

#[test]
fn confirmation_is_terminal() {
    let mut t = Tracker::new(ids(&["n1"]));
    t.record_local(3);
    t.backfill();
    assert_eq!(t.record_gossip(&"n1".to_string(), &vec![], &vec![3]), Ok(()));
    assert_eq!(t.status(0, 3), Some(DatumStatus::Confirmed));
    t.backfill();
    assert_eq!(t.record_gossip(&"n1".to_string(), &vec![3], &vec![]), Ok(()));
    t.record_local(3);
    assert_eq!(t.status(0, 3), Some(DatumStatus::Confirmed));
    let (need, received) = t.deltas(0);
    assert!(need.is_empty() && received.is_empty());
}

#[test]
fn untracked_confirmation_is_refused_without_change() {
    let mut t = Tracker::new(ids(&["n1"]));
    t.record_local(3);
    assert_eq!(
        t.record_gossip(&"n1".to_string(), &vec![9], &vec![3]),
        Err(TrackerError::UntrackedConfirmation)
    );
    assert_eq!(t.seen_list(), vec![3]);
    assert_eq!(t.status(0, 3), None);
    assert_eq!(t.status(0, 9), None);
}

#[test]
fn confirmation_of_data_learned_in_the_same_message_is_accepted() {
    let mut t = Tracker::new(ids(&["n1"]));
    assert_eq!(t.record_gossip(&"n1".to_string(), &vec![9], &vec![9]), Ok(()));
    assert_eq!(t.status(0, 9), Some(DatumStatus::Confirmed));
}

#[test]
fn gossip_from_unknown_sender_teaches_but_adds_no_peer() {
    let mut t = Tracker::new(ids(&["n1"]));
    assert_eq!(t.record_gossip(&"n9".to_string(), &vec![4], &vec![]), Ok(()));
    assert_eq!(t.peer_count(), 1);
    assert_eq!(t.peer_position(&"n9".to_string()), None);
    assert_eq!(t.peer_id(0), "n1");
    assert_eq!(t.seen_list(), vec![4]);
    assert_eq!(t.status(0, 4), None);
}

#[test]
fn confirmation_from_unknown_sender_is_refused() {
    let mut t = Tracker::new(ids(&["n1"]));
    assert_eq!(
        t.record_gossip(&"n9".to_string(), &vec![4], &vec![4]),
        Err(TrackerError::UntrackedConfirmation)
    );
    assert_eq!(t.peer_count(), 1);
    assert!(t.seen_list().is_empty());
}

#[test]
fn same_gossip_twice_is_the_same_as_once() {
    let mut once = Tracker::new(ids(&["n1"]));
    once.record_local(1);
    once.backfill();
    let mut twice = Tracker::new(ids(&["n1"]));
    twice.record_local(1);
    twice.backfill();
    let p = "n1".to_string();
    assert_eq!(once.record_gossip(&p, &vec![2, 3], &vec![1]), Ok(()));
    assert_eq!(twice.record_gossip(&p, &vec![2, 3], &vec![1]), Ok(()));
    assert_eq!(twice.record_gossip(&p, &vec![2, 3], &vec![1]), Ok(()));
    assert_eq!(sorted(once.seen_list()), sorted(twice.seen_list()));
    for d in 1..4 {
        assert_eq!(once.status(0, d), twice.status(0, d));
    }
    assert_eq!(twice.status(0, 2), Some(DatumStatus::ReceivedUnconfirmed));
}

#[test]
fn set_members_lists_each_member_once() {
    let s: HashSet<usize> = [4, 1, 9].into_iter().collect();
    assert_eq!(sorted(set_members(&s)), vec![1, 4, 9]);
    assert!(set_members(&HashSet::new()).is_empty());
}
