use crate::bucket::{AddOutcome, Probe};
use crate::contact::Contact;
use crate::network::{Message, MessageType, MessageTypeView, MessageView};
use crate::node::Node;
use crate::routing_table::{
    insert_outcome, inserted, k_nearest, lemma_inserted_at_tail, table_holds, takes, RoutingTable,
};
use crate::sha::{sha1_digest, SHA};
use crate::storage::{Storage, StorageError, StorageResult};
use vstd::prelude::*;
use vstd::utf8::encode_utf8;

verus! {

/// A message on its way to a peer.
#[derive(Debug)]
pub struct Outgoing {
    pub target: Contact,
    pub message: Message,
}

/// What handling one inbound message asks the caller to do: send the
/// reply, run the probe, report the storage failure.
#[derive(Debug)]
pub struct Reaction {
    pub reply: Option<Outgoing>,
    pub probe: Option<Probe>,
    pub storage_error: Option<StorageError>,
}

/// The probe that the table's answer to seeing `sender` asks for, if any.
pub open spec fn probe_for(outcome: Option<AddOutcome>, sender: Contact) -> Option<Probe> {
    match outcome {
        Some(AddOutcome::Full(head)) => Some(Probe { head, candidate: sender }),
        _ => None,
    }
}

/// The message of the node `local` with the content `kind`, under the
/// number `request_id`.
pub open spec fn message_from(
    local: Contact,
    request_id: u64,
    kind: MessageTypeView,
) -> MessageView {
    MessageView { message_type: kind, sender: local, request_id }
}

/// What a store lookup found, for the answer to FIND_VALUE: a failure of
/// the store counts as the key being absent.
pub open spec fn found(lookup: StorageResult<Option<String>>) -> Option<Seq<char>> {
    match lookup {
        Ok(Some(value)) => Some(value@),
        _ => None,
    }
}

/// The content of the answer to FIND_VALUE for `key`: the value where the
/// lookup found one, else the peers nearest to the key's identifier.
pub open spec fn value_answer(
    t: Seq<Seq<Contact>>,
    local: Seq<u8>,
    key: Seq<char>,
    value: Option<Seq<char>>,
) -> MessageTypeView {
    match value {
        Some(text) => MessageTypeView::FindValueResponse {
            value: Some(text),
            nodes: Seq::empty(),
            key,
        },
        None => MessageTypeView::FindValueResponse {
            value: None,
            nodes: k_nearest(t, local, sha1_digest(encode_utf8(key))),
            key,
        },
    }
}

/// What the node sends back for a message of the content `kind`, when its
/// table, after it has taken note of the sender, is `t`. `value` is what
/// the store holds for the key of a FIND_VALUE.
pub open spec fn reply_kind(
    t: Seq<Seq<Contact>>,
    local: Seq<u8>,
    kind: MessageTypeView,
    value: Option<Seq<char>>,
) -> Option<MessageTypeView> {
    match kind {
        MessageTypeView::Ping => Some(MessageTypeView::Pong),
        MessageTypeView::FindNode { wanted_id } => Some(
            MessageTypeView::FindNodeResponse {
                nodes: k_nearest(t, local, wanted_id@),
                target: wanted_id,
            },
        ),
        MessageTypeView::FindValue { key } => Some(value_answer(t, local, key, value)),
        _ => None,
    }
}

/// The failure that the store's answer to a lookup carries, if it is one.
pub open spec fn lookup_failure(answer: StorageResult<Option<String>>) -> Option<StorageError> {
    match answer {
        Err(e) => Some(e),
        _ => None,
    }
}

/// True when `reply` is the message that answers `m` with the content
/// `kind`, sent by `local` to the sender of `m` under the number of `m`;
/// where there is no content, when there is no reply.
pub open spec fn replies(
    reply: Option<Outgoing>,
    kind: Option<MessageTypeView>,
    local: Contact,
    m: MessageView,
) -> bool {
    match kind {
        Some(content) => reply matches Some(out) && out.target == m.sender && out.message@
            == message_from(local, m.request_id, content),
        None => reply is None,
    }
}

/// What handling the message `m` makes of the node `before` and asks of
/// the caller. The node keeps its identity and its store; its table has
/// taken note of the sender, and where the sender's bucket could take it
/// the table now holds the sender. A probe is asked for exactly where that
/// bucket was full of other peers. A STORE hands its pair to the store and
/// reports the failure of the store's answer; nothing goes back. A
/// FIND_VALUE asks the store for its key, answers with the value that the
/// store gave or, where it gave none or failed, with the nearest peers,
/// and reports the failure. Every other message is answered as
/// `reply_kind` says and reports no failure. Every reply carries the
/// request's number and goes to the sender.
pub open spec fn handled<T: Storage>(
    before: Node<T>,
    m: MessageView,
    after: Node<T>,
    reaction: Reaction,
) -> bool {
    &&& after.contact == before.contact
    &&& after.name == before.name
    &&& after.storage == before.storage
    &&& after.dropped_frames == before.dropped_frames
    &&& after.evictions == before.evictions
    &&& after.routing_table@ == inserted(before.routing_table@, before.contact.id(), m.sender)
    &&& reaction.probe == probe_for(
        insert_outcome(before.routing_table@, before.contact.id(), m.sender),
        m.sender,
    )
    &&& takes(before.routing_table@, before.contact.id(), m.sender) ==> table_holds(
        after.routing_table@,
        m.sender.id(),
    )
    &&& match m.message_type {
        MessageTypeView::Store { key, value } => {
            &&& reaction.reply is None
            &&& exists|text: &str, pair: &String, answer: StorageResult<()>|
                text@ == key && pair@ == value && #[trigger] call_ensures(
                    <T as Storage>::store,
                    (&before.storage, text, pair),
                    answer,
                ) && reaction.storage_error == failure_of(answer)
        },
        MessageTypeView::FindValue { key } => exists|
            text: &str,
            answer: StorageResult<Option<String>>,
        |
            text@ == key && #[trigger] call_ensures(
                <T as Storage>::get,
                (&before.storage, text),
                answer,
            ) && reaction.storage_error == lookup_failure(answer) && replies(
                reaction.reply,
                reply_kind(after.routing_table@, before.contact.id(), m.message_type, found(answer)),
                before.contact,
                m,
            ),
        kind => reaction.storage_error is None && replies(
            reaction.reply,
            reply_kind(after.routing_table@, before.contact.id(), kind, None),
            before.contact,
            m,
        ),
    }
}

/// The answer to a PING from `target`.
pub fn handle_ping<T: Storage>(node: &Node<T>, target: Contact, request_id: u64) -> (out: Outgoing)
    ensures
        out.target == target,
        out.message@ == message_from(node.contact, request_id, MessageTypeView::Pong),
{
    Outgoing {
        target,
        message: Message { message_type: MessageType::Pong, sender: node.contact, request_id },
    }
}

/// Hands the pair of a STORE to the local store, and reports its failure.
pub fn handle_store<T: Storage>(node: &Node<T>, key: &String, value: &String) -> (failure: Option<
    StorageError,
>)
    ensures
        exists|text: &str, answer: StorageResult<()>|
            text@ == key@ && #[trigger] call_ensures(
                <T as Storage>::store,
                (&node.storage, text, value),
                answer,
            ) && failure == failure_of(answer),
{
    let answer = node.storage.store(key.as_str(), value);
    store_failure(answer)
}

/// What is reported of the store's answer to a STORE: its failure, where
/// it is one. Nothing goes back to the sender either way.
pub open spec fn failure_of(answer: StorageResult<()>) -> Option<StorageError> {
    match answer {
        Ok(_) => None,
        Err(e) => Some(e),
    }
}

/// The failure that the store's answer to a STORE carries, if it is one.
pub fn store_failure(answer: StorageResult<()>) -> (failure: Option<StorageError>)
    ensures
        failure == failure_of(answer),
{
    match answer {
        Ok(_) => None,
        Err(e) => Some(e),
    }
}

/// A PONG asks for nothing.
pub fn handle_pong(target: Contact) -> (out: Option<Outgoing>)
    ensures
        out is None,
{
    None
}

/// The answer to a FIND_NODE from `target`: the peers that the table
/// knows nearest to `wanted_id`.
pub fn handle_find_node<T: Storage>(
    node: &Node<T>,
    target: Contact,
    wanted_id: &SHA,
    request_id: u64,
) -> (out: Outgoing)
    requires
        node.wf(),
    ensures
        out.target == target,
        out.message@ == message_from(
            node.contact,
            request_id,
            MessageTypeView::FindNodeResponse {
                nodes: k_nearest(node.routing_table@, node.contact.id(), wanted_id@),
                target: *wanted_id,
            },
        ),
{
    let closest_nodes = node.routing_table.find_k_nearest_nodes(*wanted_id);
    Outgoing {
        target,
        message: Message {
            message_type: MessageType::FindNodeResponse { nodes: closest_nodes, target: *wanted_id },
            sender: node.contact,
            request_id,
        },
    }
}

/// The answer to a FIND_VALUE for `key`, given what the local store said
/// when it was asked for `key`: the value where it has one, else the peers
/// nearest to the key's identifier. A failure of the store is answered as
/// an absent key, and handed back.
pub fn find_value_reply(
    local: Contact,
    table: &RoutingTable,
    request_id: u64,
    key: &String,
    lookup: StorageResult<Option<String>>,
) -> (out: (Message, Option<StorageError>))
    requires
        table.wf(),
    ensures
        out.0@ == message_from(
            local,
            request_id,
            value_answer(table@, table.local_id()@, key@, found(lookup)),
        ),
        out.1 == lookup_failure(lookup),
{
    match lookup {
        Ok(Some(value)) => (
            Message {
                message_type: MessageType::FindValueResponse {
                    value: Some(value),
                    nodes: Vec::new(),
                    key: key.clone(),
                },
                sender: local,
                request_id,
            },
            None,
        ),
        Ok(None) => {
            let key_id = SHA::hash_string(key);
            let closest_nodes = table.find_k_nearest_nodes(key_id);
            (
                Message {
                    message_type: MessageType::FindValueResponse {
                        value: None,
                        nodes: closest_nodes,
                        key: key.clone(),
                    },
                    sender: local,
                    request_id,
                },
                None,
            )
        },
        Err(e) => {
            let key_id = SHA::hash_string(key);
            let closest_nodes = table.find_k_nearest_nodes(key_id);
            (
                Message {
                    message_type: MessageType::FindValueResponse {
                        value: None,
                        nodes: closest_nodes,
                        key: key.clone(),
                    },
                    sender: local,
                    request_id,
                },
                Some(e),
            )
        },
    }
}

/// The answer to a FIND_VALUE from `target`: asks the local store for
/// `key` and answers as `find_value_reply` says for what it got. The
/// store's failure, if it failed, is handed back beside the answer.
pub fn handle_find_value<T: Storage>(
    node: &Node<T>,
    target: Contact,
    key: &String,
    request_id: u64,
) -> (out: (Outgoing, Option<StorageError>))
    requires
        node.wf(),
    ensures
        out.0.target == target,
        exists|text: &str, answer: StorageResult<Option<String>>|
            text@ == key@ && #[trigger] call_ensures(
                <T as Storage>::get,
                (&node.storage, text),
                answer,
            ) && out.0.message@ == message_from(
                node.contact,
                request_id,
                value_answer(node.routing_table@, node.contact.id(), key@, found(answer)),
            ) && out.1 == lookup_failure(answer),
{
    let answer = node.storage.get(key.as_str());
    let (message, failure) = find_value_reply(
        node.contact,
        &node.routing_table,
        request_id,
        key,
        answer,
    );
    (Outgoing { target, message }, failure)
}

/// Handles one inbound message. The sender is first shown to the routing
/// table; where its bucket is full of other peers, the probe that decides
/// about it is handed back. Then the message is answered by its kind: a
/// PING with a PONG, a FIND_NODE with the nearest peers known, a
/// FIND_VALUE with the value or, where the store has none, with the
/// nearest peers; a STORE goes to the store; answers to this node's own
/// requests ask for nothing here. Every answer carries the request's
/// number and goes to the sender.
pub fn handle_incoming_message<T: Storage>(node: &mut Node<T>, message: &Message) -> (reaction:
    Reaction)
    requires
        old(node).wf(),
    ensures
        final(node).wf(),
        handled(*old(node), message@, *final(node), reaction),
{
    let target = message.sender;
    proof {
        if takes(node.routing_table@, node.contact.id(), target) {
            lemma_inserted_at_tail(node.routing_table@, node.contact.id(), target);
        }
    }
    let outcome = node.routing_table.insert_node(&target);
    let probe = match outcome {
        Some(AddOutcome::Full(head)) => Some(Probe { head, candidate: target }),
        _ => None,
    };
    let ghost t = node.routing_table@;
    let ghost local = node.contact.id();
    match &message.message_type {
        MessageType::Ping => {
            let out = handle_ping(node, target, message.request_id);
            assert(reply_kind(t, local, message@.message_type, None) == Some(
                MessageTypeView::Pong,
            ));
            Reaction { reply: Some(out), probe, storage_error: None }
        },
        MessageType::Store { key, value } => {
            let failure = handle_store(node, key, value);
            assert(reply_kind(t, local, message@.message_type, None) is None);
            Reaction { reply: None, probe, storage_error: failure }
        },
        MessageType::Pong => {
            assert(reply_kind(t, local, message@.message_type, None) is None);
            Reaction { reply: handle_pong(target), probe, storage_error: None }
        },
        MessageType::FindNode { wanted_id } => {
            let out = handle_find_node(node, target, wanted_id, message.request_id);
            assert(reply_kind(t, local, message@.message_type, None) == Some(
                MessageTypeView::FindNodeResponse {
                    nodes: k_nearest(t, local, wanted_id@),
                    target: *wanted_id,
                },
            ));
            Reaction { reply: Some(out), probe, storage_error: None }
        },
        MessageType::FindValue { key } => {
            let (out, failure) = handle_find_value(node, target, key, message.request_id);
            Reaction { reply: Some(out), probe, storage_error: failure }
        },
        MessageType::FindNodeResponse { .. } => {
            assert(reply_kind(t, local, message@.message_type, None) is None);
            Reaction { reply: None, probe, storage_error: None }
        },
        MessageType::FindValueResponse { .. } => {
            assert(reply_kind(t, local, message@.message_type, None) is None);
            Reaction { reply: None, probe, storage_error: None }
        },
    }
}

} // verus!
