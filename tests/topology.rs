use std::collections::{BTreeSet, VecDeque};

use glomers::topology::{are_peers, peer_set};

fn roster(n: u32) -> Vec<String> {
    (0..n).map(|i| format!("n{}", i)).collect()
}

fn peers_of(id: &str, n: u32) -> Vec<String> {
    peer_set(&id.to_string(), &roster(n)).expect("valid identifiers")
}

fn strs(v: &[&str]) -> Vec<String> {
    v.iter().map(|x| x.to_string()).collect()
}

#[test]
fn branch_node_seven_peers_with_its_trunk_and_one_partner() {
    assert_eq!(peers_of("n7", 25), strs(&["n2", "n12"]));
}

#[test]
fn topology_is_deterministic() {
    for i in 0..25 {
        let id = format!("n{}", i);
        assert_eq!(peers_of(&id, 25), peers_of(&id, 25));
    }
}

#[test]
fn trunk_node_peers_with_ring_neighbours_and_its_branches() {
    assert_eq!(peers_of("n0", 25), strs(&["n1", "n4", "n5", "n10", "n15", "n20"]));
    assert_eq!(peers_of("n2", 25), strs(&["n1", "n3", "n7", "n12", "n17", "n22"]));
}

#[test]
fn every_branch_has_exactly_two_peers() {
    for i in 5..25 {
        let p = peers_of(&format!("n{}", i), 25);
        assert_eq!(p.len(), 2, "node {}", i);
        assert_eq!(p[0], format!("n{}", i % 5));
    }
}

#[test]
fn five_node_cluster_is_a_ring() {
    assert_eq!(peers_of("n0", 5), strs(&["n1", "n4"]));
    assert_eq!(peers_of("n3", 5), strs(&["n2", "n4"]));
}

#[test]
fn node_never_peers_with_itself() {
    for i in 0..25 {
        let id = format!("n{}", i);
        assert!(!peers_of(&id, 25).contains(&id));
    }
}

#[test]
fn duplicate_roster_entries_are_taken_once() {
    let r = strs(&["n0", "n1", "n1", "n2", "n7", "n7"]);
    assert_eq!(peer_set(&"n2".to_string(), &r), Some(strs(&["n1", "n7"])));
}

#[test]
fn unparseable_identifiers_give_no_topology() {
    assert_eq!(peer_set(&"x".to_string(), &roster(5)), None);
    let mut r = roster(5);
    r.push("node".to_string());
    assert_eq!(peer_set(&"n0".to_string(), &r), None);
}

#[test]
fn peer_relation_is_symmetric() {
    for a in 0..40 {
        for b in 0..40 {
            assert_eq!(are_peers(a, b), are_peers(b, a), "{} {}", a, b);
        }
    }
}

fn edges(n: u32) -> Vec<(u32, u32)> {
    let mut out = Vec::new();
    for a in 0..n {
        for p in peers_of(&format!("n{}", a), n) {
            let b: u32 = p[1..].parse().unwrap();
            if a < b {
                out.push((a, b));
            }
        }
    }
    out
}

/// Largest hop count between two nodes, or `None` where the graph is split.
fn diameter(n: u32, edges: &[(u32, u32)], removed: &BTreeSet<usize>) -> Option<u32> {
    let mut adj = vec![Vec::new(); n as usize];
    for (k, (a, b)) in edges.iter().enumerate() {
        if !removed.contains(&k) {
            adj[*a as usize].push(*b as usize);
            adj[*b as usize].push(*a as usize);
        }
    }
    let mut worst = 0;
    for s in 0..n as usize {
        let mut dist = vec![u32::MAX; n as usize];
        dist[s] = 0;
        let mut q = VecDeque::new();
        q.push_back(s);
        while let Some(x) = q.pop_front() {
            for &y in &adj[x] {
                if dist[y] == u32::MAX {
                    dist[y] = dist[x] + 1;
                    q.push_back(y);
                }
            }
        }
        for &d in &dist {
            if d == u32::MAX {
                return None;
            }
            worst = worst.max(d);
        }
    }
    Some(worst)
}

#[test]
fn twenty_five_nodes_within_four_hops() {
    let e = edges(25);
    assert_eq!(diameter(25, &e, &BTreeSet::new()), Some(4));
}

#[test]
fn twenty_five_nodes_within_six_hops_after_losing_one_link() {
    let e = edges(25);
    for k in 0..e.len() {
        let removed: BTreeSet<usize> = [k].into_iter().collect();
        let d = diameter(25, &e, &removed).expect("connected");
        assert!(d <= 6, "removing {:?} gives {}", e[k], d);
    }
}

#[test]
fn losing_both_links_of_a_branch_isolates_it() {
    let e = edges(25);
    let removed: BTreeSet<usize> = e
        .iter()
        .enumerate()
        .filter(|(_, (a, b))| *a == 7 || *b == 7)
        .map(|(k, _)| k)
        .collect();
    assert_eq!(removed.len(), 2);
    assert_eq!(diameter(25, &e, &removed), None);
}
