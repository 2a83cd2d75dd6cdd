use crate::contact::Contact;
use crate::sha::SHA;
use vstd::prelude::*;

verus! {

/// What a message asks for or answers, with what it carries.
#[derive(Clone, Debug)]
pub enum MessageType {
    Ping,
    Pong,
    Store { key: String, value: String },
    FindValue { key: String },
    FindNode { wanted_id: SHA },
    FindNodeResponse { nodes: Vec<Contact>, target: SHA },
    FindValueResponse { value: Option<String>, nodes: Vec<Contact>, key: String },
}

/// The mathematical content of a `MessageType`.
pub enum MessageTypeView {
    Ping,
    Pong,
    Store { key: Seq<char>, value: Seq<char> },
    FindValue { key: Seq<char> },
    FindNode { wanted_id: SHA },
    FindNodeResponse { nodes: Seq<Contact>, target: SHA },
    FindValueResponse { value: Option<Seq<char>>, nodes: Seq<Contact>, key: Seq<char> },
}

/// The content of an optional text.
pub open spec fn text_view(value: Option<String>) -> Option<Seq<char>> {
    match value {
        Some(text) => Some(text@),
        None => None,
    }
}

impl View for MessageType {
    type V = MessageTypeView;

    open spec fn view(&self) -> MessageTypeView {
        match *self {
            MessageType::Ping => MessageTypeView::Ping,
            MessageType::Pong => MessageTypeView::Pong,
            MessageType::Store { key, value } => MessageTypeView::Store {
                key: key@,
                value: value@,
            },
            MessageType::FindValue { key } => MessageTypeView::FindValue { key: key@ },
            MessageType::FindNode { wanted_id } => MessageTypeView::FindNode { wanted_id },
            MessageType::FindNodeResponse { nodes, target } => MessageTypeView::FindNodeResponse {
                nodes: nodes@,
                target,
            },
            MessageType::FindValueResponse {
                value,
                nodes,
                key,
            } => MessageTypeView::FindValueResponse {
                value: text_view(value),
                nodes: nodes@,
                key: key@,
            },
        }
    }
}

/// One datagram's worth of protocol: what is asked or answered, who sent
/// it, and the number that pairs an answer with its request.
#[derive(Clone, Debug)]
pub struct Message {
    pub message_type: MessageType,
    pub sender: Contact,
    pub request_id: u64,
}

/// The mathematical content of a `Message`.
pub struct MessageView {
    pub message_type: MessageTypeView,
    pub sender: Contact,
    pub request_id: u64,
}

impl View for Message {
    type V = MessageView;

    open spec fn view(&self) -> MessageView {
        MessageView {
            message_type: self.message_type@,
            sender: self.sender,
            request_id: self.request_id,
        }
    }
}

impl MessageType {
    /// True for the three kinds that answer a request: PONG and the two
    /// FIND responses.
    pub fn is_response(&self) -> (r: bool)
        ensures
            r == (self@ is FindNodeResponse || self@ is FindValueResponse || self@ is Pong),
    {
        match self {
            MessageType::FindNodeResponse { .. } => true,
            MessageType::FindValueResponse { .. } => true,
            MessageType::Pong => true,
            _ => false,
        }
    }
}

} // verus!
