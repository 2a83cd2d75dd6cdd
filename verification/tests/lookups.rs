use kademlia::codec::{decode, encode};
use kademlia::config::{ALPHA, K, MAX_ROUNDS, RPC_TIMEOUT_MS};
use kademlia::contact::{Contact, IpAddress};
use kademlia::distance::Distance;
use kademlia::lookup::{Lookup, LookupStatus, LookupStep};
use kademlia::network::{Message, MessageType};
use kademlia::node::{Node, ValueSearch};
use kademlia::routing_table::RoutingTable;
use kademlia::sha::SHA;
use kademlia::storage::{Storage, StorageResult};
use std::cell::RefCell;
use std::collections::HashMap;

struct MemoryStorage {
    pairs: RefCell<HashMap<String, String>>,
}

impl Storage for MemoryStorage {
    fn print(&self) -> StorageResult<()> {
        Ok(())
    }

    fn store(&self, key: &str, value: &String) -> StorageResult<()> {
        self.pairs.borrow_mut().insert(key.to_string(), value.clone());
        Ok(())
    }

    fn get(&self, key: &str) -> StorageResult<Option<String>> {
        Ok(self.pairs.borrow().get(key).cloned())
    }

    fn remove(&self, key: &str) -> StorageResult<()> {
        self.pairs.borrow_mut().remove(key);
        Ok(())
    }

    fn contains(&self, key: &str) -> StorageResult<bool> {
        Ok(self.pairs.borrow().contains_key(key))
    }
}

/// A network in one process: a frame for a peer is handed to that peer's
/// `receive`, and the reply, if any, comes back at once. A dead peer
/// swallows what it is sent.
struct Network {
    nodes: Vec<Node<MemoryStorage>>,
    dead: Vec<SHA>,
}

fn contact(n: usize) -> Contact {
    Contact {
        node_id: SHA::hash(format!("node-{}", n).as_bytes()),
        ip_address: IpAddress::V4([127, 0, 0, 1]),
        port: 5001 + n as u16,
    }
}

impl Network {
    fn new(size: usize) -> Network {
        let nodes = (0..size)
            .map(|n| {
                Node::new(
                    format!("node-{}", n),
                    contact(n),
                    MemoryStorage { pairs: RefCell::new(HashMap::new()) },
                )
            })
            .collect();
        Network { nodes, dead: Vec::new() }
    }

    fn index_of(&self, id: SHA) -> Option<usize> {
        self.nodes.iter().position(|node| node.contact.node_id == id)
    }

    /// Delivers `message` to the peer at `port`, and the reply to `from`.
    fn exchange(&mut self, from: usize, port: u16, message: &Message) -> Option<Message> {
        let to = (port - 5001) as usize;
        if self.dead.contains(&self.nodes[to].contact.node_id) {
            return None;
        }
        let frame = encode(message).unwrap();
        let (_, reaction) = self.nodes[to].receive(&frame).unwrap();
        let reply = reaction.reply?;
        assert_eq!(reply.target.node_id, self.nodes[from].contact.node_id);
        let frame = encode(&reply.message).unwrap();
        let (answer, _) = self.nodes[from].receive(&frame).unwrap();
        Some(answer)
    }

    /// Runs `lookup` for the node `from` to its end; returns the rounds.
    fn run(&mut self, from: usize, lookup: &mut Lookup) -> usize {
        let mut now = 0u64;
        loop {
            let sender = self.nodes[from].contact;
            match lookup.tick(now, sender) {
                LookupStep::Done => return lookup.rounds,
                LookupStep::Wait => now += RPC_TIMEOUT_MS,
                LookupStep::Send(requests) => {
                    for out in requests {
                        if let Some(answer) = self.exchange(from, out.target.port, &out.message) {
                            // An answer that comes after the value was found is dropped.
                            let taken = lookup.on_response(&answer);
                            assert!(taken || lookup.value().is_some());
                        }
                    }
                }
            }
        }
    }

    /// Lets node `n` join through node 0.
    fn join(&mut self, n: usize) {
        let (ping, mut lookup) =
            self.nodes[n].join("127.0.0.1", IpAddress::V4([127, 0, 0, 1]), 5001, n as u64);
        let placeholder = ping.target.node_id;
        assert_eq!(placeholder, SHA::hash(b"127.0.0.1:5001"));
        assert_eq!(lookup.target, self.nodes[n].contact.node_id);
        let pong = self.exchange(n, 5001, &ping.message).unwrap();
        assert!(matches!(pong.message_type, MessageType::Pong));
        // The placeholder names a peer that answers under its real
        // identifier: asking it is asking node 0.
        self.run(n, &mut lookup);
    }

    fn joined(size: usize) -> Network {
        let mut network = Network::new(size);
        for n in 1..size {
            network.join(n);
        }
        network
    }

    fn true_nearest(&self, from: usize, target: SHA) -> Vec<SHA> {
        let mut ids: Vec<SHA> = self
            .nodes
            .iter()
            .map(|node| node.contact.node_id)
            .filter(|id| *id != self.nodes[from].contact.node_id && !self.dead.contains(id))
            .collect();
        ids.sort_by_key(|id| Distance::new(id, &target));
        ids.truncate(K);
        ids
    }
}

fn real_ids(found: &[Contact], network: &Network) -> Vec<SHA> {
    found.iter().map(|c| c.node_id).filter(|id| network.index_of(*id).is_some()).collect()
}

#[test]
fn lookup_on_an_empty_table_is_finished_at_once() {
    let table = RoutingTable::new(SHA::hash(b"me"));
    let mut lookup = Lookup::new(&table, SHA::hash(b"target"), None);
    assert_eq!(lookup.status(), LookupStatus::Finished);
    assert!(lookup.candidates().is_empty());
    assert!(lookup.begin_round(0, contact(0)).is_empty());
    assert_eq!(lookup.rounds, 0);
    assert!(lookup.closest_nodes().is_empty());
    assert!(lookup.value().is_none());
}

#[test]
fn first_round_probes_alpha_nearest() {
    let mut table = RoutingTable::new(SHA::hash(b"me"));
    for n in 0..10 {
        table.insert_node(&contact(n));
    }
    let target = SHA::hash(b"target");
    let mut lookup = Lookup::new(&table, target, None);
    assert_eq!(lookup.status(), LookupStatus::Ready);
    let nearest = table.find_k_nearest_nodes(target);
    let ids = vec![11, 22, 33, 44];
    let out = lookup.begin_round_with(&ids, 1000, contact(99));
    assert_eq!(out.len(), ALPHA);
    for i in 0..ALPHA {
        assert_eq!(out[i].target.node_id, nearest[i].node_id);
        assert_eq!(out[i].message.request_id, ids[i]);
        assert_eq!(out[i].message.sender.node_id, contact(99).node_id);
        assert!(matches!(out[i].message.message_type, MessageType::FindNode { wanted_id } if wanted_id == target));
        assert_eq!(lookup.pending[i].request_id, ids[i]);
        assert_eq!(lookup.pending[i].contact.node_id, nearest[i].node_id);
        assert_eq!(lookup.pending[i].deadline, 1000 + RPC_TIMEOUT_MS);
    }
    assert_eq!(lookup.pending.len(), ALPHA);
    assert_eq!(lookup.rounds, 1);
    assert_eq!(lookup.status(), LookupStatus::Waiting);
    assert_eq!(lookup.candidates().len(), 10 - ALPHA);
    // Nothing more is sent while probes are outstanding.
    assert!(lookup.begin_round_with(&ids, 1000, contact(99)).is_empty());
    assert_eq!(lookup.rounds, 1);
}

#[test]
fn round_sends_no_more_probes_than_it_has_numbers() {
    let mut table = RoutingTable::new(SHA::hash(b"me"));
    for n in 0..10 {
        table.insert_node(&contact(n));
    }
    let mut lookup = Lookup::new(&table, SHA::hash(b"target"), None);
    let out = lookup.begin_round_with(&vec![5], 0, contact(99));
    assert_eq!(out.len(), 1);
    assert_eq!(lookup.pending.len(), 1);
}

#[test]
fn deadline_saturates() {
    let mut table = RoutingTable::new(SHA::hash(b"me"));
    table.insert_node(&contact(1));
    let mut lookup = Lookup::new(&table, SHA::hash(b"target"), None);
    lookup.begin_round_with(&vec![5], u64::MAX - 5, contact(99));
    assert_eq!(lookup.pending[0].deadline, u64::MAX);
}

#[test]
fn value_lookup_asks_for_the_value() {
    let mut table = RoutingTable::new(SHA::hash(b"me"));
    table.insert_node(&contact(1));
    let key = "foo".to_string();
    let mut lookup = Lookup::new(&table, SHA::hash_string(&key), Some(key));
    let out = lookup.begin_round_with(&vec![5], 0, contact(99));
    assert!(matches!(out[0].message.message_type, MessageType::FindValue { ref key } if key == "foo"));
}

#[test]
fn response_merges_sorts_and_marks_the_responder() {
    let me = SHA::hash(b"me");
    let mut table = RoutingTable::new(me);
    table.insert_node(&contact(1));
    let target = SHA::hash(b"target");
    let mut lookup = Lookup::new(&table, target, None);
    lookup.begin_round_with(&vec![5], 0, contact(99));
    let myself = Contact { node_id: me, ip_address: IpAddress::V4([127, 0, 0, 1]), port: 1 };
    let nodes = vec![contact(2), contact(3), contact(1), contact(2), myself];
    let answer = Message {
        message_type: MessageType::FindNodeResponse { nodes, target },
        sender: contact(1),
        request_id: 5,
    };
    assert!(lookup.on_response(&answer));
    assert!(lookup.pending.is_empty());
    assert_eq!(lookup.queried, vec![contact(1).node_id]);
    let mut expected = vec![contact(1).node_id, contact(2).node_id, contact(3).node_id];
    expected.sort_by_key(|id| Distance::new(id, &target));
    let got: Vec<SHA> = lookup.closest_nodes().iter().map(|c| c.node_id).collect();
    assert_eq!(got, expected);
    assert_eq!(lookup.improved, expected[0] != contact(1).node_id);
    // The same answer once more finds no probe to close.
    assert!(!lookup.on_response(&answer));
}

#[test]
fn shortlist_keeps_the_k_nearest() {
    let mut table = RoutingTable::new(SHA::hash(b"me"));
    table.insert_node(&contact(0));
    let target = SHA::hash(b"target");
    let mut lookup = Lookup::new(&table, target, None);
    lookup.begin_round_with(&vec![5], 0, contact(99));
    let nodes: Vec<Contact> = (1..40).map(contact).collect();
    let answer = Message {
        message_type: MessageType::FindNodeResponse { nodes, target },
        sender: contact(0),
        request_id: 5,
    };
    assert!(lookup.on_response(&answer));
    let got: Vec<SHA> = lookup.closest_nodes().iter().map(|c| c.node_id).collect();
    let mut expected: Vec<SHA> = (0..40).map(|n| contact(n).node_id).collect();
    expected.sort_by_key(|id| Distance::new(id, &target));
    expected.truncate(K);
    assert_eq!(got, expected);
}

#[test]
fn answers_under_unknown_numbers_and_of_other_kinds_are_ignored() {
    let mut table = RoutingTable::new(SHA::hash(b"me"));
    table.insert_node(&contact(1));
    let target = SHA::hash(b"target");
    let mut lookup = Lookup::new(&table, target, None);
    lookup.begin_round_with(&vec![5], 0, contact(99));
    let stray = Message {
        message_type: MessageType::FindNodeResponse { nodes: vec![contact(2)], target },
        sender: contact(1),
        request_id: 6,
    };
    assert!(!lookup.on_response(&stray));
    let pong = Message { message_type: MessageType::Pong, sender: contact(1), request_id: 5 };
    assert!(!lookup.on_response(&pong));
    assert_eq!(lookup.pending.len(), 1);
    assert_eq!(lookup.closest_nodes().len(), 1);
    assert!(lookup.queried.is_empty());
}

#[test]
fn timeout_gives_up_the_overdue_probes_only() {
    let mut table = RoutingTable::new(SHA::hash(b"me"));
    for n in 0..3 {
        table.insert_node(&contact(n));
    }
    let target = SHA::hash(b"target");
    let mut lookup = Lookup::new(&table, target, None);
    let out = lookup.begin_round_with(&vec![1, 2, 3], 100, contact(99));
    assert_eq!(out.len(), 3);
    lookup.pending[1].deadline = 5000;
    let kept = lookup.pending[1].contact.node_id;
    assert_eq!(lookup.on_timeout(100 + RPC_TIMEOUT_MS - 1), 0);
    assert_eq!(lookup.pending.len(), 3);
    assert_eq!(lookup.on_timeout(100 + RPC_TIMEOUT_MS), 2);
    assert_eq!(lookup.pending.len(), 1);
    assert_eq!(lookup.pending[0].contact.node_id, kept);
    assert_eq!(lookup.dead.len(), 2);
    assert_eq!(lookup.queried.len(), 2);
    let left: Vec<SHA> = lookup.closest_nodes().iter().map(|c| c.node_id).collect();
    assert_eq!(left, vec![kept]);
}

#[test]
fn dead_peer_is_not_taken_back() {
    let mut table = RoutingTable::new(SHA::hash(b"me"));
    table.insert_node(&contact(1));
    table.insert_node(&contact(2));
    let target = SHA::hash(b"target");
    let mut lookup = Lookup::new(&table, target, None);
    let out = lookup.begin_round_with(&vec![1, 2], 0, contact(99));
    let first = out[0].target;
    let second = out[1].target;
    assert!(lookup.on_send_failed(1));
    assert!(!lookup.on_send_failed(1));
    assert_eq!(lookup.dead, vec![first.node_id]);
    let answer = Message {
        message_type: MessageType::FindNodeResponse { nodes: vec![first, contact(3)], target },
        sender: second,
        request_id: 2,
    };
    assert!(lookup.on_response(&answer));
    let got: Vec<SHA> = lookup.closest_nodes().iter().map(|c| c.node_id).collect();
    assert!(!got.contains(&first.node_id));
    assert!(got.contains(&contact(3).node_id));
    assert!(got.contains(&second.node_id));
}

#[test]
fn value_ends_the_lookup_and_abandons_the_other_probes() {
    let mut table = RoutingTable::new(SHA::hash(b"me"));
    for n in 0..3 {
        table.insert_node(&contact(n));
    }
    let key = "foo".to_string();
    let mut lookup = Lookup::new(&table, SHA::hash_string(&key), Some(key.clone()));
    lookup.begin_round_with(&vec![1, 2, 3], 0, contact(99));
    let answer = Message {
        message_type: MessageType::FindValueResponse {
            value: Some("bar".to_string()),
            nodes: Vec::new(),
            key: key.clone(),
        },
        sender: contact(0),
        request_id: 2,
    };
    assert!(lookup.on_response(&answer));
    assert_eq!(lookup.value(), Some("bar".to_string()));
    assert!(lookup.pending.is_empty());
    assert_eq!(lookup.status(), LookupStatus::Finished);
    // A late answer is dropped.
    let late = Message {
        message_type: MessageType::FindValueResponse {
            value: Some("other".to_string()),
            nodes: Vec::new(),
            key,
        },
        sender: contact(1),
        request_id: 3,
    };
    assert!(!lookup.on_response(&late));
    assert_eq!(lookup.value(), Some("bar".to_string()));
}

#[test]
fn fruitless_round_is_followed_by_one_sweep() {
    let mut table = RoutingTable::new(SHA::hash(b"me"));
    for n in 0..10 {
        table.insert_node(&contact(n));
    }
    let target = SHA::hash(b"target");
    let mut lookup = Lookup::new(&table, target, None);
    let first = lookup.begin_round_with(&vec![1, 2, 3], 0, contact(99));
    for out in &first {
        let answer = Message {
            message_type: MessageType::FindNodeResponse { nodes: Vec::new(), target },
            sender: out.target,
            request_id: out.message.request_id,
        };
        assert!(lookup.on_response(&answer));
    }
    assert!(!lookup.improved);
    assert_eq!(lookup.status(), LookupStatus::Ready);
    let ids: Vec<u64> = (10..30).collect();
    let sweep = lookup.begin_round_with(&ids, 0, contact(99));
    assert_eq!(sweep.len(), 7);
    assert!(lookup.sweeping);
    for out in &sweep {
        let answer = Message {
            message_type: MessageType::FindNodeResponse { nodes: vec![contact(50)], target },
            sender: out.target,
            request_id: out.message.request_id,
        };
        assert!(lookup.on_response(&answer));
    }
    // The sweep was the last round, whatever it brought.
    assert_eq!(lookup.status(), LookupStatus::Finished);
    assert_eq!(lookup.rounds, 2);
    assert_eq!(lookup.closest_nodes().len(), 11);
}

#[test]
fn lookup_stops_at_the_round_limit() {
    let mut table = RoutingTable::new(SHA::hash(b"me"));
    let farthest = Contact { node_id: SHA([0u8; 20]), ip_address: IpAddress::V4([1, 1, 1, 1]), port: 1 };
    table.insert_node(&farthest);
    let target = SHA([0xffu8; 20]);
    let mut lookup = Lookup::new(&table, target, None);
    // Every answer names one peer nearer than all before: no round is
    // fruitless.
    let mut next = 0u8;
    let mut asked = 0;
    while lookup.status() == LookupStatus::Ready {
        let out = lookup.begin_round_with(&vec![asked], 0, contact(99));
        assert_eq!(out.len(), 1);
        next += 1;
        let mut id = [0u8; 20];
        for bit in 0..next as usize {
            id[bit / 8] |= 0x80 >> (bit % 8);
        }
        let nearer = Contact { node_id: SHA(id), ip_address: IpAddress::V4([1, 1, 1, 1]), port: 1 };
        let answer = Message {
            message_type: MessageType::FindNodeResponse { nodes: vec![nearer], target },
            sender: out[0].target,
            request_id: asked,
        };
        assert!(lookup.on_response(&answer));
        assert!(lookup.improved);
        asked += 1;
    }
    assert_eq!(lookup.rounds, MAX_ROUNDS);
    assert_eq!(lookup.status(), LookupStatus::Finished);
    assert!(!lookup.candidates().is_empty());
}

#[test]
fn single_node_ping_to_itself() {
    let mut network = Network::new(1);
    let me = network.nodes[0].contact;
    let ping = network.nodes[0].send_ping(me, 77);
    let pong = network.exchange(0, 5001, &ping.message).unwrap();
    assert!(matches!(pong.message_type, MessageType::Pong));
    assert_eq!(pong.request_id, 77);
    assert!(!network.nodes[0].routing_table.contains(me.node_id));
    assert!(network.nodes[0].routing_table.find_k_nearest_nodes(me.node_id).is_empty());
}

#[test]
fn two_node_join() {
    let network = Network::joined(2);
    let a = network.nodes[0].contact.node_id;
    let b = network.nodes[1].contact.node_id;
    assert!(network.nodes[0].routing_table.contains(b));
    assert!(network.nodes[1].routing_table.contains(a));
}

#[test]
fn three_node_store_and_get() {
    let mut network = Network::joined(3);
    let key = "foo".to_string();
    let value = "bar".to_string();
    // On A: find where the pair belongs and send it there.
    let mut lookup = network.nodes[0].store(&key);
    network.run(0, &mut lookup);
    let targets = lookup.closest_nodes();
    assert!(!targets.is_empty());
    for out in network.nodes[0].send_store(&key, &value, &targets, 1) {
        assert!(network.exchange(0, out.target.port, &out.message).is_none());
    }
    assert_eq!(network.nodes[1].storage.get("foo").unwrap(), Some("bar".to_string()));
    // On C: the value is not there; the lookup reaches a holder.
    network.nodes[2].storage.remove("foo").unwrap();
    match network.nodes[2].get_value(&key).0 {
        ValueSearch::Local(_) => panic!("the value is not stored on this node"),
        ValueSearch::Remote(mut search) => {
            network.run(2, &mut search);
            assert_eq!(search.value(), Some("bar".to_string()));
        }
    }
    // On B: the value is there.
    let (search, failure) = network.nodes[1].get_value(&key);
    assert!(matches!(search, ValueSearch::Local(ref v) if v == "bar"));
    assert!(failure.is_none());
}

#[test]
fn get_of_a_key_that_nobody_stores_finds_nothing() {
    let mut network = Network::joined(5);
    match network.nodes[3].get_value(&"nothing".to_string()).0 {
        ValueSearch::Local(_) => panic!("nothing was stored"),
        ValueSearch::Remote(mut search) => {
            network.run(3, &mut search);
            assert_eq!(search.status(), LookupStatus::Finished);
            assert_eq!(search.value(), None);
        }
    }
}

#[test]
fn find_node_converges_on_the_nearest_in_a_network_of_twenty() {
    let mut network = Network::joined(20);
    for from in [0usize, 7, 19] {
        let target = SHA::hash(format!("target-{}", from).as_bytes());
        let mut lookup = network.nodes[from].find_node(target);
        let rounds = network.run(from, &mut lookup);
        assert!(rounds <= 6, "took {} rounds", rounds);
        let found = lookup.closest_nodes();
        let got = real_ids(&found, &network);
        assert_eq!(got, network.true_nearest(from, target));
        for pair in found.windows(2) {
            assert!(Distance::new(&pair[0].node_id, &target) <= Distance::new(&pair[1].node_id, &target));
        }
    }
}

#[test]
fn find_node_converges_with_dead_peers() {
    let mut network = Network::joined(20);
    for n in [3usize, 8, 11, 14, 17] {
        let id = network.nodes[n].contact.node_id;
        network.dead.push(id);
    }
    let target = SHA::hash(b"some target");
    let mut lookup = network.nodes[5].find_node(target);
    let rounds = network.run(5, &mut lookup);
    assert!(rounds <= MAX_ROUNDS);
    assert_eq!(lookup.status(), LookupStatus::Finished);
    let found = lookup.closest_nodes();
    for c in &found {
        assert!(!network.dead.contains(&c.node_id));
    }
    assert_eq!(real_ids(&found, &network), network.true_nearest(5, target));
}

#[test]
fn decode_of_what_a_lookup_sends_gives_it_back() {
    let mut table = RoutingTable::new(SHA::hash(b"me"));
    table.insert_node(&contact(1));
    let mut lookup = Lookup::new(&table, SHA::hash(b"target"), None);
    let out = lookup.begin_round(0, contact(99));
    let back = decode(&encode(&out[0].message).unwrap()).unwrap();
    assert_eq!(back.request_id, out[0].message.request_id);
    assert_eq!(back.request_id, lookup.pending[0].request_id);
}

#[test]
fn shortlist_names_no_peer_twice() {
    let me = SHA::hash(b"me");
    let mut table = RoutingTable::new(me);
    table.insert_node(&contact(1));
    table.insert_node(&contact(2));
    let target = SHA::hash(b"target");
    let mut lookup = Lookup::new(&table, target, None);
    let out = lookup.begin_round_with(&vec![5, 6], 0, contact(99));
    // The answers repeat peers, also under another address, and name the
    // asking node itself.
    let mut elsewhere = contact(3);
    elsewhere.port = 1;
    elsewhere.ip_address = IpAddress::V6([9; 16]);
    let mut known_elsewhere = contact(1);
    known_elsewhere.port = 2;
    let myself = Contact { node_id: me, ip_address: IpAddress::V4([127, 0, 0, 1]), port: 1 };
    let nodes = vec![contact(3), elsewhere, known_elsewhere, contact(2), contact(4), contact(4), myself];
    for (i, probe) in out.iter().enumerate() {
        let answer = Message {
            message_type: MessageType::FindNodeResponse { nodes: nodes.clone(), target },
            sender: probe.target,
            request_id: 5 + i as u64,
        };
        assert!(lookup.on_response(&answer));
    }
    let found = lookup.closest_nodes();
    let mut ids: Vec<SHA> = found.iter().map(|c| c.node_id).collect();
    assert_eq!(ids.len(), 4);
    assert!(!ids.contains(&me));
    ids.sort();
    ids.dedup();
    assert_eq!(ids.len(), 4);
    // A peer that was known keeps the address it was known under.
    let first = found.iter().find(|c| c.node_id == contact(1).node_id).unwrap();
    assert_eq!(first.port, contact(1).port);
    let third = found.iter().find(|c| c.node_id == contact(3).node_id).unwrap();
    assert_eq!(third.port, contact(3).port);
}

#[test]
fn join_hands_back_the_ping_and_the_lookup_for_the_own_identifier() {
    let mut network = Network::new(2);
    network.nodes[1].routing_table.insert_node(&contact(7));
    let own = network.nodes[1].contact;
    let (ping, lookup) = network.nodes[1].join("10.0.0.9", IpAddress::V4([10, 0, 0, 9]), 4000, 55);
    assert!(matches!(ping.message.message_type, MessageType::Ping));
    assert_eq!(ping.message.request_id, 55);
    assert_eq!(ping.message.sender.node_id, own.node_id);
    assert_eq!(ping.target.node_id, SHA::hash(b"10.0.0.9:4000"));
    assert_eq!(ping.target.port, 4000);
    assert_eq!(ping.target.ip_address, IpAddress::V4([10, 0, 0, 9]));
    assert!(network.nodes[1].routing_table.contains(ping.target.node_id));
    assert!(!network.nodes[1].routing_table.contains(own.node_id));
    // The lookup is for the node's own identifier and starts from the
    // table that holds the peer just entered.
    assert_eq!(lookup.target, own.node_id);
    assert_eq!(lookup.local, own.node_id);
    assert!(lookup.key.is_none());
    assert_eq!(lookup.rounds, 0);
    assert!(lookup.pending.is_empty() && lookup.queried.is_empty() && lookup.dead.is_empty());
    let expected = network.nodes[1].routing_table.find_k_nearest_nodes(own.node_id);
    let got: Vec<SHA> = lookup.closest_nodes().iter().map(|c| c.node_id).collect();
    let want: Vec<SHA> = expected.iter().map(|c| c.node_id).collect();
    assert_eq!(got, want);
    assert_eq!(got.len(), 2);
    assert!(got.contains(&ping.target.node_id));
    assert_eq!(lookup.status(), LookupStatus::Ready);
}

#[test]
fn begin_round_on_a_waiting_lookup_changes_nothing() {
    let mut table = RoutingTable::new(SHA::hash(b"me"));
    for n in 0..10 {
        table.insert_node(&contact(n));
    }
    let target = SHA::hash(b"target");
    let mut lookup = Lookup::new(&table, target, None);
    let first = lookup.begin_round(0, contact(99));
    assert_eq!(first.len(), ALPHA);
    let answer = Message {
        message_type: MessageType::FindNodeResponse { nodes: vec![contact(50), contact(51)], target },
        sender: first[0].target,
        request_id: first[0].message.request_id,
    };
    assert!(lookup.on_response(&answer));
    let improved = lookup.improved;
    let pending: Vec<u64> = lookup.pending.iter().map(|p| p.request_id).collect();
    assert_eq!(lookup.status(), LookupStatus::Waiting);
    assert!(lookup.begin_round(10, contact(99)).is_empty());
    assert_eq!(lookup.rounds, 1);
    assert_eq!(lookup.improved, improved);
    assert!(!lookup.sweeping);
    let after: Vec<u64> = lookup.pending.iter().map(|p| p.request_id).collect();
    assert_eq!(after, pending);
    assert_eq!(lookup.status(), LookupStatus::Waiting);
}

#[test]
fn tick_of_a_lookup_with_nobody_to_ask_is_done() {
    let table = RoutingTable::new(SHA::hash(b"me"));
    let mut lookup = Lookup::new(&table, SHA::hash(b"target"), None);
    assert!(matches!(lookup.tick(0, contact(99)), LookupStep::Done));
    assert_eq!(lookup.rounds, 0);
}

#[test]
fn tick_begins_a_round_then_waits_then_gives_up_the_overdue() {
    let mut table = RoutingTable::new(SHA::hash(b"me"));
    for n in 0..5 {
        table.insert_node(&contact(n));
    }
    let target = SHA::hash(b"target");
    let mut lookup = Lookup::new(&table, target, None);
    let first = match lookup.tick(100, contact(99)) {
        LookupStep::Send(requests) => requests,
        other => panic!("expected a round, got {:?}", other),
    };
    assert_eq!(first.len(), ALPHA);
    assert_eq!(lookup.rounds, 1);
    assert!(lookup.pending.iter().all(|p| p.deadline == 100 + RPC_TIMEOUT_MS));
    // Before the deadline nothing happens.
    assert!(matches!(lookup.tick(100 + RPC_TIMEOUT_MS - 1, contact(99)), LookupStep::Wait));
    assert_eq!(lookup.pending.len(), ALPHA);
    assert_eq!(lookup.rounds, 1);
    // At the deadline the three probes are given up; nothing nearer was
    // found, so the next round is the sweep of the two peers left.
    let second = match lookup.tick(100 + RPC_TIMEOUT_MS, contact(99)) {
        LookupStep::Send(requests) => requests,
        other => panic!("expected the sweep, got {:?}", other),
    };
    assert_eq!(second.len(), 2);
    assert_eq!(lookup.dead.len(), ALPHA);
    assert_eq!(lookup.rounds, 2);
    assert!(lookup.sweeping);
    assert_eq!(lookup.closest_nodes().len(), 2);
    // When these run out too, the lookup is over with nobody left.
    assert!(matches!(lookup.tick(100 + 2 * RPC_TIMEOUT_MS, contact(99)), LookupStep::Done));
    assert!(lookup.closest_nodes().is_empty());
    assert_eq!(lookup.status(), LookupStatus::Finished);
}

#[test]
fn lookup_among_dead_peers_ends_within_its_rounds_and_time() {
    let mut network = Network::joined(20);
    for n in 1..20 {
        let id = network.nodes[n].contact.node_id;
        network.dead.push(id);
    }
    let mut lookup = network.nodes[0].find_node(SHA::hash(b"anything"));
    let sender = network.nodes[0].contact;
    let mut now = 0u64;
    let mut turns = 0;
    loop {
        turns += 1;
        assert!(turns <= 2 * MAX_ROUNDS + 1);
        match lookup.tick(now, sender) {
            LookupStep::Done => break,
            LookupStep::Wait => now += RPC_TIMEOUT_MS,
            LookupStep::Send(_) => {}
        }
    }
    assert!(lookup.rounds <= MAX_ROUNDS);
    assert!(now <= MAX_ROUNDS as u64 * RPC_TIMEOUT_MS);
    assert!(lookup.closest_nodes().is_empty());
}
