use crate::address::{join_address, joined};
use crate::codec::{decode, parse_message, CodecError};
use crate::config::ID_BITS;
use crate::bucket::Probe;
use crate::contact::{Contact, IpAddress};
use crate::eviction::{
    is_first_with, none_with, overdue_probes, probes_of, waiting_probes, PendingEviction,
    ProbeTable,
};
use crate::lookup::{deadline_from, Lookup};
use crate::message_handler::{
    handle_incoming_message, handled, lookup_failure, message_from, Outgoing, Reaction,
};
use crate::network::{Message, MessageType, MessageTypeView, MessageView};
use crate::node_metadata::MetaData;
use crate::routing_table::{inserted, settled_all, settled_table, RoutingTable};
use crate::sha::{sha1_digest, SHA};
use crate::storage::{Storage, StorageError, StorageResult};
use vstd::prelude::*;
use vstd::utf8::encode_utf8;

verus! {

/// One participant of the overlay: who it is, whom it knows, and what it
/// stores.
#[derive(Debug)]
pub struct Node<T: Storage> {
    pub name: String,
    pub contact: Contact,
    pub routing_table: RoutingTable,
    pub storage: T,
    /// How many inbound frames were dropped because they could not be
    /// decoded.
    pub dropped_frames: u64,
    /// The probes of bucket heads that are on their way.
    pub evictions: ProbeTable,
}

/// Where a value is to be had: from the local store, or by a lookup.
#[derive(Debug)]
pub enum ValueSearch {
    Local(String),
    Remote(Lookup),
}

/// What the end of the probe with number `request_id` makes of the node
/// `before`: the oldest probe with that number leaves the table of
/// probes, and the routing table is told whether the probed head
/// answered. Where no probe has that number, nothing changes.
pub open spec fn probe_ended<T: Storage>(
    before: Node<T>,
    request_id: u64,
    head_responded: bool,
    after: Node<T>,
) -> bool {
    &&& after.contact == before.contact
    &&& after.name == before.name
    &&& after.storage == before.storage
    &&& after.dropped_frames == before.dropped_frames
    &&& if none_with(before.evictions@, request_id) {
        after.evictions@ == before.evictions@ && after.routing_table@ == before.routing_table@
    } else {
        exists|p: int|
            #[trigger] is_first_with(before.evictions@, request_id, p) && after.evictions@
                == before.evictions@.remove(p) && after.routing_table@ == settled_table(
                before.routing_table@,
                before.contact.id(),
                before.evictions@[p].probe.head,
                before.evictions@[p].probe.candidate,
                head_responded,
            )
    }
}

/// What a message that was handled still does to the node `before`: a
/// PONG ends the probe that waits for it, as answered; any other message
/// does nothing more.
pub open spec fn answered<T: Storage>(before: Node<T>, m: MessageView, after: Node<T>) -> bool {
    if m.message_type is Pong {
        probe_ended(before, m.request_id, true, after)
    } else {
        after == before
    }
}

/// The count of dropped frames after one more was dropped.
pub open spec fn one_more(count: u64) -> u64 {
    if count == u64::MAX {
        count
    } else {
        (count + 1) as u64
    }
}

impl<T: Storage> Node<T> {
    /// The node's table is valid and is the table of the node's own
    /// identifier.
    pub open spec fn wf(&self) -> bool {
        self.routing_table.wf() && self.routing_table.local_id() == self.contact.node_id
    }

    /// A node that knows no peer yet.
    pub fn new(name: String, contact: Contact, storage: T) -> (node: Node<T>)
        ensures
            node.wf(),
            node.name == name,
            node.contact == contact,
            node.storage == storage,
            node.dropped_frames == 0,
            node.evictions@.len() == 0,
            node.routing_table@ == Seq::new(ID_BITS as nat, |i: int| Seq::<Contact>::empty()),
    {
        Node {
            name,
            contact,
            routing_table: RoutingTable::new(contact.node_id),
            storage,
            dropped_frames: 0,
            evictions: ProbeTable::new(),
        }
    }

    /// A node with the name, identifier and port of `metadata`, reachable
    /// at `ip_address`, that knows no peer yet.
    pub fn from_metadata(metadata: &MetaData, ip_address: IpAddress, storage: T) -> (node: Node<T>)
        ensures
            node.wf(),
            node.name@ == metadata.name@,
            node.contact == (Contact { node_id: metadata.node_id, ip_address, port: metadata.port }),
            node.storage == storage,
            node.dropped_frames == 0,
            node.evictions@.len() == 0,
            node.routing_table@ == Seq::new(ID_BITS as nat, |i: int| Seq::<Contact>::empty()),
    {
        Node::new(
            metadata.name.clone(),
            Contact { node_id: metadata.node_id, ip_address, port: metadata.port },
            storage,
        )
    }

    /// A message of this node for `target`.
    pub fn send(&self, target: Contact, message_type: MessageType, request_id: u64) -> (out:
        Outgoing)
        ensures
            out.target == target,
            out.message@ == message_from(self.contact, request_id, message_type@),
    {
        Outgoing { target, message: Message { message_type, sender: self.contact, request_id } }
    }

    /// A PING for `target`.
    pub fn send_ping(&self, target: Contact, request_id: u64) -> (out: Outgoing)
        ensures
            out.target == target,
            out.message@ == message_from(self.contact, request_id, MessageTypeView::Ping),
    {
        self.send(target, MessageType::Ping, request_id)
    }

    /// A PONG for `target`.
    pub fn send_pong(&self, target: Contact, request_id: u64) -> (out: Outgoing)
        ensures
            out.target == target,
            out.message@ == message_from(self.contact, request_id, MessageTypeView::Pong),
    {
        self.send(target, MessageType::Pong, request_id)
    }

    /// A FIND_NODE for `wanted_id`, for `target`.
    pub fn send_find_node(&self, target: Contact, wanted_id: SHA, request_id: u64) -> (out:
        Outgoing)
        ensures
            out.target == target,
            out.message@ == message_from(
                self.contact,
                request_id,
                MessageTypeView::FindNode { wanted_id },
            ),
    {
        self.send(target, MessageType::FindNode { wanted_id }, request_id)
    }

    /// A FIND_VALUE for `key`, for each of `targets`, in their order.
    pub fn send_find_value(&self, key: &String, targets: &Vec<Contact>, request_id: u64) -> (out:
        Vec<Outgoing>)
        ensures
            out@.len() == targets@.len(),
            forall|i: int|
                0 <= i < out@.len() ==> (#[trigger] out@[i]).target == targets@[i]
                    && out@[i].message@ == message_from(
                    self.contact,
                    request_id,
                    MessageTypeView::FindValue { key: key@ },
                ),
    {
        let mut out: Vec<Outgoing> = Vec::new();
        let mut i: usize = 0;
        while i < targets.len()
            invariant
                i <= targets@.len(),
                out@.len() == i,
                forall|j: int|
                    0 <= j < i ==> (#[trigger] out@[j]).target == targets@[j] && out@[j].message@
                        == message_from(
                        self.contact,
                        request_id,
                        MessageTypeView::FindValue { key: key@ },
                    ),
            decreases targets@.len() - i,
        {
            out.push(self.send(targets[i], MessageType::FindValue { key: key.clone() }, request_id));
            i += 1;
        }
        out
    }

    /// A STORE of the pair, for each of `targets`, in their order.
    pub fn send_store(
        &self,
        key: &String,
        value: &String,
        targets: &Vec<Contact>,
        request_id: u64,
    ) -> (out: Vec<Outgoing>)
        ensures
            out@.len() == targets@.len(),
            forall|i: int|
                0 <= i < out@.len() ==> (#[trigger] out@[i]).target == targets@[i]
                    && out@[i].message@ == message_from(
                    self.contact,
                    request_id,
                    MessageTypeView::Store { key: key@, value: value@ },
                ),
    {
        let mut out: Vec<Outgoing> = Vec::new();
        let mut i: usize = 0;
        while i < targets.len()
            invariant
                i <= targets@.len(),
                out@.len() == i,
                forall|j: int|
                    0 <= j < i ==> (#[trigger] out@[j]).target == targets@[j] && out@[j].message@
                        == message_from(
                        self.contact,
                        request_id,
                        MessageTypeView::Store { key: key@, value: value@ },
                    ),
            decreases targets@.len() - i,
        {
            out.push(
                self.send(
                    targets[i],
                    MessageType::Store { key: key.clone(), value: value.clone() },
                    request_id,
                ),
            );
            i += 1;
        }
        out
    }

    /// Takes one inbound frame. A frame that cannot be decoded is dropped
    /// and counted, and the reason handed back. Any other is handled as
    /// `handle_incoming_message` says, and handed back with what handling
    /// it asks for; a PONG then ends the probe that waits for it.
    pub fn receive(&mut self, frame: &[u8]) -> (r: Result<(Message, Reaction), CodecError>)
        requires
            old(self).wf(),
        ensures
            final(self).wf(),
            match parse_message(frame@) {
                Ok(m) => {
                    &&& r matches Ok((message, reaction))
                    &&& message@ == m
                    &&& exists|mid: Node<T>|
                        #[trigger] handled(*old(self), m, mid, reaction) && mid.wf() && answered(
                            mid,
                            m,
                            *final(self),
                        )
                },
                Err(e) => {
                    &&& r matches Err(error)
                    &&& error == e
                    &&& final(self).dropped_frames == one_more(old(self).dropped_frames)
                    &&& final(self).routing_table@ == old(self).routing_table@
                    &&& final(self).evictions == old(self).evictions
                    &&& final(self).contact == old(self).contact
                    &&& final(self).name == old(self).name
                    &&& final(self).storage == old(self).storage
                },
            },
    {
        match decode(frame) {
            Ok(message) => {
                let reaction = handle_incoming_message(self, &message);
                let ghost mid = *self;
                if let MessageType::Pong = message.message_type {
                    let _ = self.end_probe(message.request_id, true);
                }
                assert(answered(mid, message@, *self));
                Ok((message, reaction))
            },
            Err(e) => {
                if self.dropped_frames < u64::MAX {
                    self.dropped_frames = self.dropped_frames + 1;
                }
                Err(e)
            },
        }
    }

    /// Begins the probe that a full bucket asked for: records it under
    /// the number `request_id`, to count as unanswered `RPC_TIMEOUT_MS`
    /// after `now`, and hands back the PING for the bucket's head.
    pub fn begin_probe(&mut self, probe: Probe, request_id: u64, now: u64) -> (out: Outgoing)
        ensures
            final(self).contact == old(self).contact,
            final(self).name == old(self).name,
            final(self).storage == old(self).storage,
            final(self).dropped_frames == old(self).dropped_frames,
            final(self).routing_table == old(self).routing_table,
            final(self).evictions@ == old(self).evictions@.push(
                PendingEviction { request_id, probe, deadline: deadline_from(now) },
            ),
            out.target == probe.head,
            out.message@ == message_from(old(self).contact, request_id, MessageTypeView::Ping),
    {
        self.evictions.register(request_id, probe, now);
        self.send_ping(probe.head, request_id)
    }

    /// Ends the probe with number `request_id`: tells the routing table
    /// whether the probed head answered. Returns whether such a probe was
    /// on its way.
    pub fn end_probe(&mut self, request_id: u64, head_responded: bool) -> (known: bool)
        requires
            old(self).wf(),
        ensures
            final(self).wf(),
            probe_ended(*old(self), request_id, head_responded, *final(self)),
            known == !none_with(old(self).evictions@, request_id),
    {
        match self.evictions.take(request_id) {
            Some(probe) => {
                self.routing_table.settle_node(&probe, head_responded);
                proof {
                    let p = choose|p: int|
                        #[trigger] is_first_with(old(self).evictions@, request_id, p) && probe
                            == old(self).evictions@[p].probe && self.evictions@ == old(
                            self,
                        ).evictions@.remove(p);
                    assert(old(self).evictions@[p].request_id == request_id);
                }
                true
            },
            None => false,
        }
    }

    /// Gives up every probe whose deadline is not after `now`: each counts
    /// as unanswered, oldest first. Returns how many were given up.
    pub fn expire_probes(&mut self, now: u64) -> (given_up: usize)
        requires
            old(self).wf(),
        ensures
            final(self).wf(),
            final(self).contact == old(self).contact,
            final(self).name == old(self).name,
            final(self).storage == old(self).storage,
            final(self).dropped_frames == old(self).dropped_frames,
            final(self).evictions@ == waiting_probes(old(self).evictions@, now),
            final(self).routing_table@ == settled_all(
                old(self).routing_table@,
                old(self).contact.id(),
                probes_of(overdue_probes(old(self).evictions@, now)),
            ),
            given_up == overdue_probes(old(self).evictions@, now).len(),
    {
        let lost = self.evictions.take_overdue(now);
        let mut i: usize = 0;
        assert(lost@.take(0) =~= Seq::<Probe>::empty());
        while i < lost.len()
            invariant
                i <= lost@.len(),
                self.wf(),
                self.contact == old(self).contact,
                self.name == old(self).name,
                self.storage == old(self).storage,
                self.dropped_frames == old(self).dropped_frames,
                self.evictions@ == waiting_probes(old(self).evictions@, now),
                self.routing_table@ == settled_all(
                    old(self).routing_table@,
                    old(self).contact.id(),
                    lost@.take(i as int),
                ),
            decreases lost@.len() - i,
        {
            assert(lost@.take(i as int + 1).drop_last() =~= lost@.take(i as int));
            self.routing_table.settle_node(&lost[i], false);
            i += 1;
        }
        assert(lost@.take(lost@.len() as int) =~= lost@);
        lost.len()
    }

    /// What entering the bootstrap peer at `host` and `port` makes of the
    /// node `before`, and the PING `ping` that goes with it. The peer's
    /// identifier is not known yet: it enters the table under the
    /// identifier of its address written as `host:port`. The PING is the
    /// node's own, under the number `request_id`, for that peer at
    /// `ip_address` and `port`. Nothing else of the node changes.
    pub open spec fn entered(
        before: Node<T>,
        host: Seq<char>,
        ip_address: IpAddress,
        port: u16,
        request_id: u64,
        after: Node<T>,
        ping: Outgoing,
    ) -> bool {
        &&& after.contact == before.contact
        &&& after.name == before.name
        &&& after.dropped_frames == before.dropped_frames
        &&& after.evictions == before.evictions
        &&& after.storage == before.storage
        &&& ping.target == (Contact { node_id: ping.target.node_id, ip_address, port })
        &&& ping.target.id() == sha1_digest(encode_utf8(joined(host, port)))
        &&& ping.message@ == message_from(before.contact, request_id, MessageTypeView::Ping)
        &&& after.routing_table@ == inserted(
            before.routing_table@,
            before.contact.id(),
            ping.target,
        )
    }

    /// Enters the bootstrap peer at `host` and `port` into the table, as
    /// `entered` says, and hands back the PING for it.
    pub fn bootstrap(&mut self, host: &str, ip_address: IpAddress, port: u16, request_id: u64) -> (out:
        Outgoing)
        requires
            old(self).wf(),
        ensures
            final(self).wf(),
            Self::entered(*old(self), host@, ip_address, port, request_id, *final(self), out),
    {
        let address = join_address(host, port);
        let peer = Contact { node_id: SHA::hash_string(&address), ip_address, port };
        let _ = self.routing_table.insert_node(&peer);
        self.send_ping(peer, request_id)
    }

    /// Joins the overlay through the peer at `host` and `port`: enters the
    /// peer into the table as `bootstrap` does, and hands back the PING for
    /// it together with the lookup that is to follow at once, a lookup for
    /// the peers nearest to the node's own identifier that begins from the
    /// table as it now is.
    pub fn join(&mut self, host: &str, ip_address: IpAddress, port: u16, request_id: u64) -> (out: (
        Outgoing,
        Lookup,
    ))
        requires
            old(self).wf(),
        ensures
            final(self).wf(),
            Self::entered(*old(self), host@, ip_address, port, request_id, *final(self), out.0),
            out.1.target == old(self).contact.node_id,
            out.1.begins(
                final(self).routing_table@,
                old(self).contact.node_id,
                old(self).contact.id(),
                None,
            ),
    {
        let ping = self.bootstrap(host, ip_address, port, request_id);
        let lookup = self.find_node(self.contact.node_id);
        (ping, lookup)
    }

    /// A lookup for the peers nearest to `target`, from what this node
    /// knows.
    pub fn find_node(&self, target: SHA) -> (lookup: Lookup)
        requires
            self.wf(),
        ensures
            lookup.target == target,
            lookup.begins(self.routing_table@, self.contact.node_id, target@, None),
    {
        Lookup::new(&self.routing_table, target, None)
    }

    /// Begins to store a pair in the overlay: a lookup for the peers
    /// nearest to the identifier of `key`. When it has finished, the pair
    /// goes to the peers it found, with `send_store`.
    pub fn store(&self, key: &String) -> (lookup: Lookup)
        requires
            self.wf(),
        ensures
            lookup.begins(
                self.routing_table@,
                self.contact.node_id,
                sha1_digest(encode_utf8(key@)),
                None,
            ),
    {
        self.find_node(SHA::hash_string(key))
    }

    /// What the search for the value of `key` is when the local store
    /// answered `answer`: the value itself where the store has it; else,
    /// and also where the store failed, a lookup for the value that has
    /// just begun at this node, for the key's identifier.
    pub open spec fn search_for(
        &self,
        key: Seq<char>,
        answer: StorageResult<Option<String>>,
        search: ValueSearch,
    ) -> bool {
        match answer {
            Ok(Some(value)) => search matches ValueSearch::Local(text) && text@ == value@,
            _ => search matches ValueSearch::Remote(remote) && remote.begins(
                self.routing_table@,
                self.contact.node_id,
                sha1_digest(encode_utf8(key)),
                Some(key),
            ),
        }
    }

    /// Where the value of `key` is to be had, given what the local store
    /// answered when it was asked for `key`: from the store where it has
    /// the value, else by a lookup for the value among the peers nearest
    /// to the key's identifier. The store's failure, if it failed, is
    /// handed back beside the search.
    pub fn get_value_from(&self, key: &String, answer: StorageResult<Option<String>>) -> (out: (
        ValueSearch,
        Option<StorageError>,
    ))
        requires
            self.wf(),
        ensures
            self.search_for(key@, answer, out.0),
            out.1 == lookup_failure(answer),
    {
        match answer {
            Ok(Some(value)) => (ValueSearch::Local(value), None),
            Ok(None) => (
                ValueSearch::Remote(
                    Lookup::new(&self.routing_table, SHA::hash_string(key), Some(key.clone())),
                ),
                None,
            ),
            Err(e) => (
                ValueSearch::Remote(
                    Lookup::new(&self.routing_table, SHA::hash_string(key), Some(key.clone())),
                ),
                Some(e),
            ),
        }
    }

    /// Where the value of `key` is to be had: asks the local store, and
    /// goes on as `get_value_from` says for what it got.
    pub fn get_value(&self, key: &String) -> (out: (ValueSearch, Option<StorageError>))
        requires
            self.wf(),
        ensures
            exists|text: &str, answer: StorageResult<Option<String>>|
                text@ == key@ && #[trigger] call_ensures(
                    <T as Storage>::get,
                    (&self.storage, text),
                    answer,
                ) && self.search_for(key@, answer, out.0) && out.1 == lookup_failure(answer),
    {
        let answer = self.storage.get(key.as_str());
        self.get_value_from(key, answer)
    }
}

} // verus!
