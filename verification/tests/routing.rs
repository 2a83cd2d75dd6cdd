use kademlia::bucket::{AddOutcome, Probe};
use kademlia::config::{ID_BITS, K};
use kademlia::contact::{Contact, IpAddress};
use kademlia::distance::Distance;
use kademlia::routing_table::RoutingTable;
use kademlia::sha::SHA;

fn local() -> SHA {
    SHA([0u8; 20])
}

/// A peer that shares exactly `shared` leading bits with the all-zero
/// identifier; `n` tells apart the peers of one bucket.
fn peer_in(shared: usize, n: u8) -> Contact {
    let mut id = [0u8; 20];
    id[shared / 8] = 0x80 >> (shared % 8);
    if shared / 8 < 19 {
        id[19] = n;
    }
    Contact { node_id: SHA(id), ip_address: IpAddress::V4([10, 0, 0, n]), port: 5000 }
}

fn distance_to(target: &SHA, c: &Contact) -> Distance {
    Distance::new(&c.node_id, target)
}

#[test]
fn new_table_has_empty_buckets() {
    let table = RoutingTable::new(local());
    assert_eq!(table.local_node_id(), local());
    for i in 0..ID_BITS {
        assert!(table.bucket_nodes(i).is_empty());
    }
    assert!(table.find_k_nearest_nodes(SHA::hash(b"x")).is_empty());
}

#[test]
fn find_bucket_is_the_common_prefix_length() {
    let table = RoutingTable::new(local());
    assert_eq!(table.find_bucket(peer_in(0, 0).node_id), 0);
    assert_eq!(table.find_bucket(peer_in(1, 0).node_id), 1);
    assert_eq!(table.find_bucket(peer_in(8, 0).node_id), 8);
    assert_eq!(table.find_bucket(peer_in(77, 0).node_id), 77);
    assert_eq!(table.find_bucket(peer_in(159, 0).node_id), 159);
}

#[test]
fn find_bucket_of_the_local_id_is_zero() {
    let table = RoutingTable::new(SHA::hash(b"me"));
    assert_eq!(table.find_bucket(SHA::hash(b"me")), 0);
}

#[test]
fn inserted_contact_sits_in_the_bucket_of_its_prefix_length() {
    let mut table = RoutingTable::new(local());
    for shared in [0usize, 3, 42, 100, 159] {
        assert!(matches!(table.insert_node(&peer_in(shared, 1)), Some(AddOutcome::Inserted)));
    }
    for shared in [0usize, 3, 42, 100, 159] {
        let nodes = table.bucket_nodes(shared);
        assert_eq!(nodes.len(), 1);
        assert_eq!(nodes[0].node_id, peer_in(shared, 1).node_id);
    }
    for i in 0..ID_BITS {
        for c in table.bucket_nodes(i) {
            assert_eq!(Distance::new(&local(), &c.node_id).leading_zeros(), i);
        }
    }
}

#[test]
fn local_contact_is_rejected() {
    let mut table = RoutingTable::new(local());
    let me = Contact { node_id: local(), ip_address: IpAddress::V4([127, 0, 0, 1]), port: 5001 };
    assert!(table.insert_node(&me).is_none());
    assert!(!table.contains(local()));
    for i in 0..ID_BITS {
        assert!(table.bucket_nodes(i).is_empty());
    }
}

#[test]
fn insert_twice_leaves_one_copy_at_the_tail() {
    let mut table = RoutingTable::new(local());
    table.insert_node(&peer_in(5, 1));
    table.insert_node(&peer_in(5, 2));
    assert!(matches!(table.insert_node(&peer_in(5, 1)), Some(AddOutcome::Refreshed)));
    assert!(matches!(table.insert_node(&peer_in(5, 1)), Some(AddOutcome::Refreshed)));
    let nodes = table.bucket_nodes(5);
    assert_eq!(nodes.len(), 2);
    assert_eq!(nodes[1].node_id, peer_in(5, 1).node_id);
    assert_eq!(nodes[0].node_id, peer_in(5, 2).node_id);
}

#[test]
fn no_bucket_grows_beyond_k() {
    let mut table = RoutingTable::new(local());
    for n in 0..50u8 {
        table.insert_node(&peer_in(2, n));
    }
    assert_eq!(table.bucket_nodes(2).len(), K);
    for i in 0..ID_BITS {
        assert!(table.bucket_nodes(i).len() <= K);
    }
}

#[test]
fn one_contact_too_many_with_the_head_alive_is_dropped() {
    let mut table = RoutingTable::new(local());
    for n in 0..K as u8 {
        table.insert_node(&peer_in(2, n));
    }
    let newcomer = peer_in(2, 200);
    let head = match table.insert_node(&newcomer) {
        Some(AddOutcome::Full(head)) => head,
        other => panic!("expected a probe, got {:?}", other),
    };
    assert_eq!(head.node_id, peer_in(2, 0).node_id);
    table.settle_node(&Probe { head, candidate: newcomer }, true);
    let nodes = table.bucket_nodes(2);
    assert_eq!(nodes.len(), K);
    assert!(!table.contains(newcomer.node_id));
    assert_eq!(nodes[K - 1].node_id, peer_in(2, 0).node_id);
}

#[test]
fn one_contact_too_many_with_the_head_dead_evicts_the_head() {
    let mut table = RoutingTable::new(local());
    for n in 0..K as u8 {
        table.insert_node(&peer_in(2, n));
    }
    let newcomer = peer_in(2, 200);
    assert!(matches!(table.insert_node(&newcomer), Some(AddOutcome::Full(_))));
    table.settle_node(&Probe { head: peer_in(2, 0), candidate: newcomer }, false);
    let nodes = table.bucket_nodes(2);
    assert_eq!(nodes.len(), K);
    assert!(!table.contains(peer_in(2, 0).node_id));
    assert!(table.contains(newcomer.node_id));
    assert_eq!(nodes[K - 1].node_id, newcomer.node_id);
    assert_eq!(nodes[0].node_id, peer_in(2, 1).node_id);
}

#[test]
fn settle_node_ignores_the_local_contact() {
    let mut table = RoutingTable::new(local());
    let me = Contact { node_id: local(), ip_address: IpAddress::V4([127, 0, 0, 1]), port: 5001 };
    table.settle_node(&Probe { head: peer_in(3, 1), candidate: me }, false);
    assert!(!table.contains(local()));
}

#[test]
fn contains_finds_what_was_inserted() {
    let mut table = RoutingTable::new(local());
    table.insert_node(&peer_in(9, 1));
    assert!(table.contains(peer_in(9, 1).node_id));
    assert!(!table.contains(peer_in(9, 2).node_id));
    assert!(!table.contains(peer_in(10, 1).node_id));
}

#[test]
fn nearest_nodes_are_sorted_by_distance_to_the_target() {
    let mut table = RoutingTable::new(local());
    for n in 0..30u8 {
        table.insert_node(&Contact {
            node_id: SHA::hash(&[n]),
            ip_address: IpAddress::V4([10, 0, 0, n]),
            port: 5000,
        });
    }
    let target = SHA::hash(b"target");
    let nodes = table.find_k_nearest_nodes(target);
    assert_eq!(nodes.len(), K);
    for pair in nodes.windows(2) {
        assert!(distance_to(&target, &pair[0]) <= distance_to(&target, &pair[1]));
    }
}

#[test]
fn nearest_nodes_of_a_small_table_are_all_its_contacts() {
    let mut table = RoutingTable::new(local());
    let mut all = Vec::new();
    for n in 0..7u8 {
        let c = Contact {
            node_id: SHA::hash(&[n]),
            ip_address: IpAddress::V4([10, 0, 0, n]),
            port: 5000,
        };
        table.insert_node(&c);
        all.push(c);
    }
    let target = SHA::hash(b"target");
    let nodes = table.find_k_nearest_nodes(target);
    assert_eq!(nodes.len(), 7);
    all.sort_by_key(|c| distance_to(&target, c));
    let got: Vec<SHA> = nodes.iter().map(|c| c.node_id).collect();
    let expected: Vec<SHA> = all.iter().map(|c| c.node_id).collect();
    assert_eq!(got, expected);
}

#[test]
fn nearest_nodes_start_at_the_bucket_of_the_target() {
    let mut table = RoutingTable::new(local());
    for n in 0..K as u8 {
        table.insert_node(&peer_in(0, n));
    }
    for n in 0..5u8 {
        table.insert_node(&peer_in(9, n));
    }
    // The target's bucket is 9: its five contacts come first into the
    // search, then bucket 0 fills the rest.
    let target = peer_in(9, 77).node_id;
    let nodes = table.find_k_nearest_nodes(target);
    assert_eq!(nodes.len(), K);
    let from_nine = nodes.iter().filter(|c| table.find_bucket(c.node_id) == 9).count();
    assert_eq!(from_nine, 5);
    for c in &nodes[..5] {
        assert_eq!(table.find_bucket(c.node_id), 9);
    }
}

#[test]
fn nearest_nodes_stop_widening_once_k_are_found() {
    let mut table = RoutingTable::new(local());
    for n in 0..K as u8 {
        table.insert_node(&peer_in(100, n));
    }
    table.insert_node(&peer_in(0, 1));
    let target = peer_in(100, 99).node_id;
    let nodes = table.find_k_nearest_nodes(target);
    assert_eq!(nodes.len(), K);
    for c in &nodes {
        assert_eq!(table.find_bucket(c.node_id), 100);
    }
}
