use kademlia::codec::{encode, CodecError};
use kademlia::config::K;
use kademlia::contact::{Contact, IpAddress};
use kademlia::message_handler::{
    find_value_reply, handle_incoming_message, handle_store, store_failure,
};
use kademlia::network::{Message, MessageType};
use kademlia::eviction::ProbeTable;
use kademlia::bucket::Probe;
use kademlia::node::{Node, ValueSearch};
use kademlia::routing_table::RoutingTable;
use kademlia::sha::SHA;
use kademlia::storage::{Storage, StorageError, StorageResult};
use std::cell::RefCell;
use std::collections::HashMap;

struct MemoryStorage {
    pairs: RefCell<HashMap<String, String>>,
    broken: bool,
}

impl MemoryStorage {
    fn new() -> Self {
        MemoryStorage { pairs: RefCell::new(HashMap::new()), broken: false }
    }

    fn broken() -> Self {
        MemoryStorage { pairs: RefCell::new(HashMap::new()), broken: true }
    }

    fn check(&self) -> StorageResult<()> {
        if self.broken {
            Err(StorageError { message: "disk on fire".to_string() })
        } else {
            Ok(())
        }
    }
}

impl Storage for MemoryStorage {
    fn print(&self) -> StorageResult<()> {
        self.check()
    }

    fn store(&self, key: &str, value: &String) -> StorageResult<()> {
        self.check()?;
        self.pairs.borrow_mut().insert(key.to_string(), value.clone());
        Ok(())
    }

    fn get(&self, key: &str) -> StorageResult<Option<String>> {
        self.check()?;
        Ok(self.pairs.borrow().get(key).cloned())
    }

    fn remove(&self, key: &str) -> StorageResult<()> {
        self.check()?;
        self.pairs.borrow_mut().remove(key);
        Ok(())
    }

    fn contains(&self, key: &str) -> StorageResult<bool> {
        self.check()?;
        Ok(self.pairs.borrow().contains_key(key))
    }
}

fn contact(n: u8) -> Contact {
    Contact { node_id: SHA::hash(&[n]), ip_address: IpAddress::V4([127, 0, 0, 1]), port: 5000 + n as u16 }
}

fn node(n: u8) -> Node<MemoryStorage> {
    Node::new(format!("node{}", n), contact(n), MemoryStorage::new())
}

fn from(n: u8, message_type: MessageType) -> Message {
    Message { message_type, sender: contact(n), request_id: 4242 }
}

#[test]
fn ping_is_answered_with_pong() {
    let mut a = node(1);
    let reaction = handle_incoming_message(&mut a, &from(2, MessageType::Ping));
    let reply = reaction.reply.unwrap();
    assert_eq!(reply.target.node_id, contact(2).node_id);
    assert_eq!(reply.target.port, 5002);
    assert!(matches!(reply.message.message_type, MessageType::Pong));
    assert_eq!(reply.message.request_id, 4242);
    assert_eq!(reply.message.sender.node_id, contact(1).node_id);
    assert!(reaction.probe.is_none());
    assert!(reaction.storage_error.is_none());
}

#[test]
fn every_message_puts_its_sender_into_the_table() {
    let kinds = vec![
        MessageType::Ping,
        MessageType::Pong,
        MessageType::Store { key: "k".to_string(), value: "v".to_string() },
        MessageType::FindValue { key: "k".to_string() },
        MessageType::FindNode { wanted_id: SHA::hash(b"x") },
        MessageType::FindNodeResponse { nodes: Vec::new(), target: SHA::hash(b"x") },
        MessageType::FindValueResponse { value: None, nodes: Vec::new(), key: "k".to_string() },
    ];
    for (i, kind) in kinds.into_iter().enumerate() {
        let mut a = node(1);
        let sender = 10 + i as u8;
        assert!(!a.routing_table.contains(contact(sender).node_id));
        handle_incoming_message(&mut a, &from(sender, kind));
        assert!(a.routing_table.contains(contact(sender).node_id));
    }
}

#[test]
fn ping_from_itself_is_answered_but_not_recorded() {
    let mut a = node(1);
    let reaction = handle_incoming_message(&mut a, &from(1, MessageType::Ping));
    assert!(matches!(reaction.reply.unwrap().message.message_type, MessageType::Pong));
    assert!(!a.routing_table.contains(contact(1).node_id));
    assert!(a.routing_table.find_k_nearest_nodes(contact(1).node_id).is_empty());
}

#[test]
fn pong_and_responses_ask_for_nothing() {
    let mut a = node(1);
    assert!(handle_incoming_message(&mut a, &from(2, MessageType::Pong)).reply.is_none());
    let nodes_answer = MessageType::FindNodeResponse { nodes: vec![contact(9)], target: SHA::hash(b"x") };
    assert!(handle_incoming_message(&mut a, &from(3, nodes_answer)).reply.is_none());
    let value_answer = MessageType::FindValueResponse {
        value: Some("v".to_string()),
        nodes: Vec::new(),
        key: "k".to_string(),
    };
    assert!(handle_incoming_message(&mut a, &from(4, value_answer)).reply.is_none());
    // The peers that an answer names are not taken into the table here.
    assert!(!a.routing_table.contains(contact(9).node_id));
}

#[test]
fn store_writes_to_the_local_store() {
    let mut a = node(1);
    let store = MessageType::Store { key: "foo".to_string(), value: "bar".to_string() };
    let reaction = handle_incoming_message(&mut a, &from(2, store));
    assert!(reaction.reply.is_none());
    assert!(reaction.storage_error.is_none());
    assert_eq!(a.storage.get("foo").unwrap(), Some("bar".to_string()));
    let again = MessageType::Store { key: "foo".to_string(), value: "baz".to_string() };
    handle_incoming_message(&mut a, &from(3, again));
    assert_eq!(a.storage.get("foo").unwrap(), Some("baz".to_string()));
}

#[test]
fn store_reports_a_failing_store() {
    let mut a = Node::new("a".to_string(), contact(1), MemoryStorage::broken());
    let store = MessageType::Store { key: "foo".to_string(), value: "bar".to_string() };
    let reaction = handle_incoming_message(&mut a, &from(2, store));
    assert!(reaction.reply.is_none());
    assert_eq!(reaction.storage_error.unwrap().message, "disk on fire");
    assert!(a.routing_table.contains(contact(2).node_id));
}

#[test]
fn find_node_is_answered_with_the_nearest_known() {
    let mut a = node(1);
    for n in 10..40u8 {
        a.routing_table.insert_node(&contact(n));
    }
    let wanted = SHA::hash(b"wanted");
    let reaction = handle_incoming_message(&mut a, &from(2, MessageType::FindNode { wanted_id: wanted }));
    let expected = a.routing_table.find_k_nearest_nodes(wanted);
    let reply = reaction.reply.unwrap();
    assert_eq!(reply.message.request_id, 4242);
    match reply.message.message_type {
        MessageType::FindNodeResponse { nodes, target } => {
            assert_eq!(target, wanted);
            assert_eq!(nodes.len(), K);
            let got: Vec<SHA> = nodes.iter().map(|c| c.node_id).collect();
            let want: Vec<SHA> = expected.iter().map(|c| c.node_id).collect();
            assert_eq!(got, want);
        }
        other => panic!("unexpected answer {:?}", other),
    }
}

#[test]
fn find_value_is_answered_with_the_value_where_it_is_stored() {
    let mut a = node(1);
    a.storage.store("foo", &"bar".to_string()).unwrap();
    a.routing_table.insert_node(&contact(7));
    let reaction = handle_incoming_message(&mut a, &from(2, MessageType::FindValue { key: "foo".to_string() }));
    match reaction.reply.unwrap().message.message_type {
        MessageType::FindValueResponse { value, nodes, key } => {
            assert_eq!(value, Some("bar".to_string()));
            assert!(nodes.is_empty());
            assert_eq!(key, "foo");
        }
        other => panic!("unexpected answer {:?}", other),
    }
}

#[test]
fn find_value_is_answered_with_peers_where_it_is_not_stored() {
    let mut a = node(1);
    a.routing_table.insert_node(&contact(7));
    let reaction = handle_incoming_message(&mut a, &from(2, MessageType::FindValue { key: "foo".to_string() }));
    assert!(reaction.storage_error.is_none());
    match reaction.reply.unwrap().message.message_type {
        MessageType::FindValueResponse { value, nodes, key } => {
            assert_eq!(value, None);
            assert_eq!(key, "foo");
            let mut got: Vec<SHA> = nodes.iter().map(|c| c.node_id).collect();
            got.sort();
            let mut want = vec![contact(7).node_id, contact(2).node_id];
            want.sort();
            assert_eq!(got, want);
        }
        other => panic!("unexpected answer {:?}", other),
    }
}

#[test]
fn find_value_with_a_failing_store_is_answered_as_absent() {
    let mut a = Node::new("a".to_string(), contact(1), MemoryStorage::broken());
    let reaction = handle_incoming_message(&mut a, &from(2, MessageType::FindValue { key: "foo".to_string() }));
    assert_eq!(reaction.storage_error.unwrap().message, "disk on fire");
    match reaction.reply.unwrap().message.message_type {
        MessageType::FindValueResponse { value, nodes, .. } => {
            assert_eq!(value, None);
            assert_eq!(nodes.len(), 1);
        }
        other => panic!("unexpected answer {:?}", other),
    }
}

#[test]
fn find_value_reply_for_each_lookup_result() {
    let mut table = RoutingTable::new(contact(1).node_id);
    table.insert_node(&contact(5));
    let key = "foo".to_string();
    let (found, failure) = find_value_reply(contact(1), &table, 9, &key, Ok(Some("bar".to_string())));
    assert!(failure.is_none());
    assert_eq!(found.request_id, 9);
    assert!(matches!(
        found.message_type,
        MessageType::FindValueResponse { value: Some(ref v), ref nodes, .. } if v == "bar" && nodes.is_empty()
    ));
    let (absent, failure) = find_value_reply(contact(1), &table, 9, &key, Ok(None));
    assert!(failure.is_none());
    assert!(matches!(
        absent.message_type,
        MessageType::FindValueResponse { value: None, ref nodes, .. } if nodes.len() == 1
    ));
    let error = StorageError { message: "no".to_string() };
    let (failed, failure) = find_value_reply(contact(1), &table, 9, &key, Err(error));
    assert_eq!(failure.unwrap().message, "no");
    assert!(matches!(
        failed.message_type,
        MessageType::FindValueResponse { value: None, ref nodes, .. } if nodes.len() == 1
    ));
}

#[test]
fn sender_of_a_full_bucket_asks_for_a_probe() {
    let local = SHA([0u8; 20]);
    let me = Contact { node_id: local, ip_address: IpAddress::V4([127, 0, 0, 1]), port: 5001 };
    let mut a = Node::new("a".to_string(), me, MemoryStorage::new());
    let in_bucket_zero = |n: u8| {
        let mut id = [0u8; 20];
        id[0] = 0x80;
        id[19] = n;
        Contact { node_id: SHA(id), ip_address: IpAddress::V4([10, 0, 0, n]), port: 1 }
    };
    for n in 0..K as u8 {
        let m = Message { message_type: MessageType::Ping, sender: in_bucket_zero(n), request_id: 1 };
        assert!(handle_incoming_message(&mut a, &m).probe.is_none());
    }
    let newcomer = in_bucket_zero(200);
    let m = Message { message_type: MessageType::Ping, sender: newcomer, request_id: 1 };
    let reaction = handle_incoming_message(&mut a, &m);
    let probe = reaction.probe.unwrap();
    assert_eq!(probe.head.node_id, in_bucket_zero(0).node_id);
    assert_eq!(probe.candidate.node_id, newcomer.node_id);
    assert!(matches!(reaction.reply.unwrap().message.message_type, MessageType::Pong));
    assert!(!a.routing_table.contains(newcomer.node_id));
    a.routing_table.settle_node(&probe, false);
    assert!(a.routing_table.contains(newcomer.node_id));
    assert!(!a.routing_table.contains(in_bucket_zero(0).node_id));
}

#[test]
fn receive_decodes_and_handles() {
    let mut a = node(1);
    let frame = encode(&from(2, MessageType::Ping)).unwrap();
    let (message, reaction) = a.receive(&frame).unwrap();
    assert!(matches!(message.message_type, MessageType::Ping));
    assert_eq!(message.sender.node_id, contact(2).node_id);
    assert!(matches!(reaction.reply.unwrap().message.message_type, MessageType::Pong));
    assert!(a.routing_table.contains(contact(2).node_id));
    assert_eq!(a.dropped_frames, 0);
}

#[test]
fn receive_counts_and_drops_what_it_cannot_decode() {
    let mut a = node(1);
    assert_eq!(a.receive(&[1, 2, 3]).unwrap_err(), CodecError::Malformed);
    assert_eq!(a.receive(&[9]).unwrap_err(), CodecError::UnknownVersion);
    assert_eq!(a.dropped_frames, 2);
    a.dropped_frames = u64::MAX;
    assert!(a.receive(&[]).is_err());
    assert_eq!(a.dropped_frames, u64::MAX);
    assert!(a.routing_table.find_k_nearest_nodes(contact(1).node_id).is_empty());
}

#[test]
fn node_builds_its_requests() {
    let a = node(1);
    let ping = a.send_ping(contact(2), 7);
    assert!(matches!(ping.message.message_type, MessageType::Ping));
    assert_eq!(ping.message.request_id, 7);
    assert_eq!(ping.message.sender.node_id, contact(1).node_id);
    assert_eq!(ping.target.node_id, contact(2).node_id);
    let pong = a.send_pong(contact(2), 8);
    assert!(matches!(pong.message.message_type, MessageType::Pong));
    let find = a.send_find_node(contact(2), SHA::hash(b"x"), 9);
    assert!(matches!(find.message.message_type, MessageType::FindNode { wanted_id } if wanted_id == SHA::hash(b"x")));
    let targets = vec![contact(3), contact(4), contact(5)];
    let stores = a.send_store(&"foo".to_string(), &"bar".to_string(), &targets, 10);
    assert_eq!(stores.len(), 3);
    for (out, target) in stores.iter().zip(&targets) {
        assert_eq!(out.target.node_id, target.node_id);
        assert_eq!(out.message.request_id, 10);
        assert!(matches!(
            out.message.message_type,
            MessageType::Store { ref key, ref value } if key == "foo" && value == "bar"
        ));
    }
    let finds = a.send_find_value(&"foo".to_string(), &targets, 11);
    assert_eq!(finds.len(), 3);
    assert_eq!(finds[2].target.node_id, contact(5).node_id);
    assert!(matches!(finds[0].message.message_type, MessageType::FindValue { ref key } if key == "foo"));
}

#[test]
fn store_failure_is_the_failure_of_the_answer() {
    assert!(store_failure(Ok(())).is_none());
    let failed = store_failure(Err(StorageError { message: "full".to_string() }));
    assert_eq!(failed.unwrap().message, "full");
}

#[test]
fn handle_store_hands_the_pair_to_the_store() {
    let a = node(1);
    assert!(handle_store(&a, &"foo".to_string(), &"bar".to_string()).is_none());
    assert_eq!(a.storage.get("foo").unwrap(), Some("bar".to_string()));
    assert_eq!(a.storage.get("bar").unwrap(), None);
    let broken = Node::new("b".to_string(), contact(2), MemoryStorage::broken());
    let failure = handle_store(&broken, &"foo".to_string(), &"bar".to_string());
    assert_eq!(failure.unwrap().message, "disk on fire");
}

fn in_bucket_zero(n: u8) -> Contact {
    let mut id = [0u8; 20];
    id[0] = 0x80;
    id[19] = n;
    Contact { node_id: SHA(id), ip_address: IpAddress::V4([10, 0, 0, n]), port: 1 }
}

/// A node whose bucket 0 is full, and the probe that one more sender
/// asks for.
fn node_with_a_probe() -> (Node<MemoryStorage>, Probe) {
    let me = Contact { node_id: SHA([0u8; 20]), ip_address: IpAddress::V4([127, 0, 0, 1]), port: 5001 };
    let mut a = Node::new("a".to_string(), me, MemoryStorage::new());
    for n in 0..K as u8 {
        let m = Message { message_type: MessageType::Ping, sender: in_bucket_zero(n), request_id: 1 };
        handle_incoming_message(&mut a, &m);
    }
    let m = Message { message_type: MessageType::Ping, sender: in_bucket_zero(200), request_id: 1 };
    let probe = handle_incoming_message(&mut a, &m).probe.unwrap();
    (a, probe)
}

fn bucket_zero(a: &Node<MemoryStorage>) -> Vec<u8> {
    a.routing_table.bucket_nodes(0).iter().map(|c| c.node_id.0[19]).collect()
}

#[test]
fn begin_probe_records_the_probe_and_pings_the_head() {
    let (mut a, probe) = node_with_a_probe();
    let ping = a.begin_probe(probe, 77, 1000);
    assert_eq!(ping.target.node_id, in_bucket_zero(0).node_id);
    assert!(matches!(ping.message.message_type, MessageType::Ping));
    assert_eq!(ping.message.request_id, 77);
    assert_eq!(a.evictions.pending.len(), 1);
    assert_eq!(a.evictions.pending[0].request_id, 77);
    assert_eq!(a.evictions.pending[0].deadline, 3000);
    assert_eq!(a.evictions.pending[0].probe.candidate.node_id, in_bucket_zero(200).node_id);
}

#[test]
fn pong_of_the_head_keeps_the_head_and_drops_the_newcomer() {
    let (mut a, probe) = node_with_a_probe();
    a.begin_probe(probe, 77, 1000);
    let pong = Message { message_type: MessageType::Pong, sender: in_bucket_zero(0), request_id: 77 };
    let (_, reaction) = a.receive(&encode(&pong).unwrap()).unwrap();
    assert!(reaction.reply.is_none());
    assert!(a.evictions.pending.is_empty());
    // The head is the most recently seen; the others kept their order.
    let expected: Vec<u8> = (1..K as u8).chain(std::iter::once(0)).collect();
    assert_eq!(bucket_zero(&a), expected);
    assert!(!a.routing_table.contains(in_bucket_zero(200).node_id));
}

#[test]
fn pong_under_another_number_ends_no_probe() {
    let (mut a, probe) = node_with_a_probe();
    a.begin_probe(probe, 77, 1000);
    let pong = Message { message_type: MessageType::Pong, sender: in_bucket_zero(5), request_id: 78 };
    a.receive(&encode(&pong).unwrap()).unwrap();
    assert_eq!(a.evictions.pending.len(), 1);
    assert!(!a.end_probe(78, false));
    assert_eq!(a.evictions.pending.len(), 1);
}

#[test]
fn probe_that_runs_out_evicts_the_head() {
    let (mut a, probe) = node_with_a_probe();
    a.begin_probe(probe, 77, 1000);
    assert_eq!(a.expire_probes(2999), 0);
    assert_eq!(a.evictions.pending.len(), 1);
    assert!(a.routing_table.contains(in_bucket_zero(0).node_id));
    assert_eq!(a.expire_probes(3000), 1);
    assert!(a.evictions.pending.is_empty());
    let expected: Vec<u8> = (1..K as u8).chain(std::iter::once(200)).collect();
    assert_eq!(bucket_zero(&a), expected);
}

#[test]
fn probe_that_could_not_be_sent_evicts_the_head() {
    let (mut a, probe) = node_with_a_probe();
    a.begin_probe(probe, 77, 1000);
    assert!(a.end_probe(77, false));
    assert!(a.evictions.pending.is_empty());
    assert!(!a.routing_table.contains(in_bucket_zero(0).node_id));
    assert!(a.routing_table.contains(in_bucket_zero(200).node_id));
}

#[test]
fn probe_table_takes_the_oldest_with_a_number() {
    let probe = |n: u8| Probe { head: contact(n), candidate: contact(n + 100) };
    let mut table = ProbeTable::new();
    table.register(1, probe(1), 0);
    table.register(2, probe(2), 10);
    table.register(1, probe(3), 20);
    assert!(table.take(9).is_none());
    assert_eq!(table.pending.len(), 3);
    assert_eq!(table.take(1).unwrap().head.node_id, contact(1).node_id);
    assert_eq!(table.pending.len(), 2);
    assert_eq!(table.take(1).unwrap().head.node_id, contact(3).node_id);
    assert!(table.take(1).is_none());
    assert_eq!(table.pending[0].request_id, 2);
}

#[test]
fn probe_table_takes_the_overdue_in_order() {
    let probe = |n: u8| Probe { head: contact(n), candidate: contact(n + 100) };
    let mut table = ProbeTable::new();
    table.register(1, probe(1), 0);
    table.register(2, probe(2), 500);
    table.register(3, probe(3), 100);
    table.register(4, probe(4), u64::MAX);
    assert!(table.take_overdue(1999).is_empty());
    let lost = table.take_overdue(2100);
    let heads: Vec<SHA> = lost.iter().map(|p| p.head.node_id).collect();
    assert_eq!(heads, vec![contact(1).node_id, contact(3).node_id]);
    let left: Vec<u64> = table.pending.iter().map(|e| e.request_id).collect();
    assert_eq!(left, vec![2, 4]);
    assert_eq!(table.pending[1].deadline, u64::MAX);
}

#[test]
fn get_value_hands_back_the_failure_of_the_store() {
    let a = Node::new("a".to_string(), contact(1), MemoryStorage::broken());
    let (search, failure) = a.get_value(&"foo".to_string());
    assert_eq!(failure.unwrap().message, "disk on fire");
    match search {
        ValueSearch::Remote(lookup) => {
            assert_eq!(lookup.target, SHA::hash(b"foo"));
            assert_eq!(lookup.key, Some("foo".to_string()));
            assert_eq!(lookup.rounds, 0);
        }
        ValueSearch::Local(_) => panic!("the store gave no value"),
    }
}

#[test]
fn get_value_from_for_each_answer_of_the_store() {
    let a = node(1);
    let key = "foo".to_string();
    let (search, failure) = a.get_value_from(&key, Ok(Some("bar".to_string())));
    assert!(matches!(search, ValueSearch::Local(ref v) if v == "bar"));
    assert!(failure.is_none());
    let (search, failure) = a.get_value_from(&key, Ok(None));
    assert!(matches!(search, ValueSearch::Remote(_)));
    assert!(failure.is_none());
    let (search, failure) = a.get_value_from(&key, Err(StorageError { message: "no".to_string() }));
    assert!(matches!(search, ValueSearch::Remote(_)));
    assert_eq!(failure.unwrap().message, "no");
}
