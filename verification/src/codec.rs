use crate::bytes::{
    array_of, be_bytes, lemma_array_of, lemma_be_bytes_len, lemma_be_value_of_bytes,
    lemma_pow256_values, put_all, put_be, read_be,
};
use crate::config::{MAX_FRAME_BYTES, PROTOCOL_VERSION};
use crate::contact::{Contact, IpAddress};
use crate::distance::be_value;
use crate::network::{text_view, Message, MessageType, MessageTypeView, MessageView};
use crate::sha::SHA;
use vstd::prelude::*;
use vstd::slice::slice_subrange;
use vstd::utf8::{decode_utf8, encode_utf8, valid_utf8};

verus! {

/// Why a frame was not produced or not accepted.
#[derive(Copy, Clone, Debug, PartialEq, Eq, Structural)]
pub enum CodecError {
    /// The frame is longer than `MAX_FRAME_BYTES`.
    TooLarge,
    /// The frame's first byte is not this protocol's version.
    UnknownVersion,
    /// The bytes behind the version are not a message followed by nothing.
    Malformed,
}

/// An address on the wire: a byte that says which family, then the
/// address bytes.
pub open spec fn wire_ip(ip: IpAddress) -> Seq<u8> {
    match ip {
        IpAddress::V4(a) => seq![4u8] + a@,
        IpAddress::V6(a) => seq![6u8] + a@,
    }
}

/// A contact on the wire: identifier, address, port.
pub open spec fn wire_contact(c: Contact) -> Seq<u8> {
    c.id() + wire_ip(c.ip_address) + be_bytes(c.port as nat, 2)
}

/// Contacts on the wire, one behind the other.
pub open spec fn wire_contacts(nodes: Seq<Contact>) -> Seq<u8>
    decreases nodes.len(),
{
    if nodes.len() == 0 {
        Seq::empty()
    } else {
        wire_contacts(nodes.drop_last()) + wire_contact(nodes.last())
    }
}

/// A list of contacts on the wire: how many, in two bytes, then the
/// contacts.
pub open spec fn wire_nodes(nodes: Seq<Contact>) -> Seq<u8> {
    be_bytes(nodes.len(), 2) + wire_contacts(nodes)
}

/// A text on the wire: the length of its UTF-8 form in four bytes, then
/// that form.
pub open spec fn wire_text(text: Seq<char>) -> Seq<u8> {
    be_bytes(encode_utf8(text).len(), 4) + encode_utf8(text)
}

/// An optional text on the wire: a byte that says whether it is there,
/// then the text.
pub open spec fn wire_option_text(value: Option<Seq<char>>) -> Seq<u8> {
    match value {
        Some(text) => seq![1u8] + wire_text(text),
        None => seq![0u8],
    }
}

/// The byte that names the kind of a message.
pub open spec fn tag_of(kind: MessageTypeView) -> u8 {
    match kind {
        MessageTypeView::Ping => 0,
        MessageTypeView::Pong => 1,
        MessageTypeView::Store { .. } => 2,
        MessageTypeView::FindValue { .. } => 3,
        MessageTypeView::FindNode { .. } => 4,
        MessageTypeView::FindNodeResponse { .. } => 5,
        MessageTypeView::FindValueResponse { .. } => 6,
    }
}

/// What a message of some kind carries, on the wire.
pub open spec fn wire_payload(kind: MessageTypeView) -> Seq<u8> {
    match kind {
        MessageTypeView::Ping => Seq::empty(),
        MessageTypeView::Pong => Seq::empty(),
        MessageTypeView::Store { key, value } => wire_text(key) + wire_text(value),
        MessageTypeView::FindValue { key } => wire_text(key),
        MessageTypeView::FindNode { wanted_id } => wanted_id@,
        MessageTypeView::FindNodeResponse { nodes, target } => wire_nodes(nodes) + target@,
        MessageTypeView::FindValueResponse { value, nodes, key } => wire_option_text(value)
            + wire_nodes(nodes) + wire_text(key),
    }
}

/// A message's frame: version, kind, request number, sender, payload.
pub open spec fn wire_message(m: MessageView) -> Seq<u8> {
    seq![PROTOCOL_VERSION, tag_of(m.message_type)] + be_bytes(m.request_id as nat, 8)
        + wire_contact(m.sender) + wire_payload(m.message_type)
}

fn put_array<const N: usize>(out: &mut Vec<u8>, a: &[u8; N])
    ensures
        final(out)@ == old(out)@ + a@,
{
    put_all(out, a.as_slice());
}

fn put_contact(out: &mut Vec<u8>, c: &Contact)
    ensures
        final(out)@ == old(out)@ + wire_contact(*c),
{
    put_array(out, &c.node_id.0);
    match &c.ip_address {
        IpAddress::V4(a) => {
            out.push(4u8);
            put_array(out, a);
        },
        IpAddress::V6(a) => {
            out.push(6u8);
            put_array(out, a);
        },
    }
    put_be(out, c.port as u64, 2);
    assert(final(out)@ =~= old(out)@ + wire_contact(*c));
}

fn put_nodes(out: &mut Vec<u8>, nodes: &Vec<Contact>)
    ensures
        final(out)@ == old(out)@ + wire_nodes(nodes@),
{
    put_be(out, nodes.len() as u64, 2);
    let ghost start = out@;
    let mut i: usize = 0;
    assert(nodes@.take(0) =~= Seq::<Contact>::empty());
    while i < nodes.len()
        invariant
            i <= nodes@.len(),
            out@ == start + wire_contacts(nodes@.take(i as int)),
        decreases nodes@.len() - i,
    {
        put_contact(out, &nodes[i]);
        proof {
            let next = nodes@.take(i as int + 1);
            assert(next.drop_last() =~= nodes@.take(i as int));
            assert(out@ =~= start + wire_contacts(next));
        }
        i += 1;
    }
    assert(nodes@.take(nodes@.len() as int) =~= nodes@);
    assert(final(out)@ =~= old(out)@ + wire_nodes(nodes@));
}

fn put_text(out: &mut Vec<u8>, text: &str)
    ensures
        final(out)@ == old(out)@ + wire_text(text@),
{
    let bytes = text.as_bytes();
    put_be(out, bytes.len() as u64, 4);
    put_all(out, bytes);
    assert(final(out)@ =~= old(out)@ + wire_text(text@));
}

fn put_payload(out: &mut Vec<u8>, kind: &MessageType)
    ensures
        final(out)@ == old(out)@ + wire_payload(kind@),
{
    match kind {
        MessageType::Ping => {},
        MessageType::Pong => {},
        MessageType::Store { key, value } => {
            put_text(out, key.as_str());
            put_text(out, value.as_str());
        },
        MessageType::FindValue { key } => {
            put_text(out, key.as_str());
        },
        MessageType::FindNode { wanted_id } => {
            put_array(out, &wanted_id.0);
        },
        MessageType::FindNodeResponse { nodes, target } => {
            put_nodes(out, nodes);
            put_array(out, &target.0);
        },
        MessageType::FindValueResponse { value, nodes, key } => {
            match value {
                Some(text) => {
                    out.push(1u8);
                    put_text(out, text.as_str());
                },
                None => {
                    out.push(0u8);
                },
            }
            put_nodes(out, nodes);
            put_text(out, key.as_str());
        },
    }
    assert(final(out)@ =~= old(out)@ + wire_payload(kind@));
}

fn tag(kind: &MessageType) -> (t: u8)
    ensures
        t == tag_of(kind@),
{
    match kind {
        MessageType::Ping => 0,
        MessageType::Pong => 1,
        MessageType::Store { .. } => 2,
        MessageType::FindValue { .. } => 3,
        MessageType::FindNode { .. } => 4,
        MessageType::FindNodeResponse { .. } => 5,
        MessageType::FindValueResponse { .. } => 6,
    }
}

/// The frame of `message`, unless it would be longer than
/// `MAX_FRAME_BYTES`.
pub fn encode(message: &Message) -> (r: Result<Vec<u8>, CodecError>)
    ensures
        wire_message(message@).len() <= MAX_FRAME_BYTES ==> (r matches Ok(frame) && frame@
            == wire_message(message@)),
        wire_message(message@).len() > MAX_FRAME_BYTES ==> r == Err::<Vec<u8>, CodecError>(
            CodecError::TooLarge,
        ),
{
    let mut out: Vec<u8> = Vec::new();
    out.push(PROTOCOL_VERSION);
    out.push(tag(&message.message_type));
    put_be(&mut out, message.request_id, 8);
    put_contact(&mut out, &message.sender);
    put_payload(&mut out, &message.message_type);
    assert(out@ =~= wire_message(message@));
    if out.len() > MAX_FRAME_BYTES {
        return Err(CodecError::TooLarge);
    }
    Ok(out)
}

/// Reads a contact from the front of `s`: the contact and the number of
/// bytes it took.
#[verifier::opaque]
pub open spec fn parse_contact(s: Seq<u8>) -> Option<(Contact, int)> {
    if s.len() < 21 {
        None
    } else if s[20] == 4 && s.len() >= 27 {
        Some(
            (
                Contact {
                    node_id: SHA(array_of::<20>(s.subrange(0, 20))),
                    ip_address: IpAddress::V4(array_of::<4>(s.subrange(21, 25))),
                    port: be_value(s.subrange(25, 27)) as u16,
                },
                27,
            ),
        )
    } else if s[20] == 6 && s.len() >= 39 {
        Some(
            (
                Contact {
                    node_id: SHA(array_of::<20>(s.subrange(0, 20))),
                    ip_address: IpAddress::V6(array_of::<16>(s.subrange(21, 37))),
                    port: be_value(s.subrange(37, 39)) as u16,
                },
                39,
            ),
        )
    } else {
        None
    }
}

/// Reads `count` contacts from the front of `s`.
pub open spec fn parse_contacts(s: Seq<u8>, count: nat) -> Option<(Seq<Contact>, int)>
    decreases count,
{
    if count == 0 {
        Some((Seq::empty(), 0))
    } else {
        match parse_contacts(s, (count - 1) as nat) {
            Some((init, used)) => if 0 <= used <= s.len() {
                match parse_contact(s.skip(used)) {
                    Some((c, n)) => Some((init.push(c), used + n)),
                    None => None,
                }
            } else {
                None
            },
            None => None,
        }
    }
}

/// Reads a list of contacts from the front of `s`.
#[verifier::opaque]
pub open spec fn parse_nodes(s: Seq<u8>) -> Option<(Seq<Contact>, int)> {
    if s.len() < 2 {
        None
    } else {
        match parse_contacts(s.skip(2), be_value(s.subrange(0, 2))) {
            Some((nodes, used)) => Some((nodes, 2 + used)),
            None => None,
        }
    }
}

/// Reads a text from the front of `s`.
#[verifier::opaque]
pub open spec fn parse_text(s: Seq<u8>) -> Option<(Seq<char>, int)> {
    if s.len() < 4 {
        None
    } else {
        let n = be_value(s.subrange(0, 4)) as int;
        if s.len() < 4 + n {
            None
        } else if !valid_utf8(s.subrange(4, 4 + n)) {
            None
        } else {
            Some((decode_utf8(s.subrange(4, 4 + n)), 4 + n))
        }
    }
}

/// Reads an optional text from the front of `s`.
#[verifier::opaque]
pub open spec fn parse_option_text(s: Seq<u8>) -> Option<(Option<Seq<char>>, int)> {
    if s.len() < 1 {
        None
    } else if s[0] == 0 {
        Some((None, 1))
    } else if s[0] == 1 {
        match parse_text(s.skip(1)) {
            Some((text, used)) => Some((Some(text), 1 + used)),
            None => None,
        }
    } else {
        None
    }
}

/// Reads an identifier from the front of `s`.
#[verifier::opaque]
pub open spec fn parse_id(s: Seq<u8>) -> Option<(SHA, int)> {
    if s.len() < 20 {
        None
    } else {
        Some((SHA(array_of::<20>(s.subrange(0, 20))), 20))
    }
}

/// Reads what a message of the kind that `tag` names carries from the
/// front of `s`.
pub open spec fn parse_payload(tag: u8, s: Seq<u8>) -> Option<(MessageTypeView, int)> {
    if tag == 0 {
        Some((MessageTypeView::Ping, 0))
    } else if tag == 1 {
        Some((MessageTypeView::Pong, 0))
    } else if tag == 2 {
        match parse_text(s) {
            Some((key, a)) => match parse_text(s.skip(a)) {
                Some((value, b)) => Some((MessageTypeView::Store { key, value }, a + b)),
                None => None,
            },
            None => None,
        }
    } else if tag == 3 {
        match parse_text(s) {
            Some((key, a)) => Some((MessageTypeView::FindValue { key }, a)),
            None => None,
        }
    } else if tag == 4 {
        match parse_id(s) {
            Some((wanted_id, a)) => Some((MessageTypeView::FindNode { wanted_id }, a)),
            None => None,
        }
    } else if tag == 5 {
        match parse_nodes(s) {
            Some((nodes, a)) => match parse_id(s.skip(a)) {
                Some((target, b)) => Some(
                    (MessageTypeView::FindNodeResponse { nodes, target }, a + b),
                ),
                None => None,
            },
            None => None,
        }
    } else if tag == 6 {
        match parse_option_text(s) {
            Some((value, a)) => match parse_nodes(s.skip(a)) {
                Some((nodes, b)) => match parse_text(s.skip(a + b)) {
                    Some((key, c)) => Some(
                        (MessageTypeView::FindValueResponse { value, nodes, key }, a + b + c),
                    ),
                    None => None,
                },
                None => None,
            },
            None => None,
        }
    } else {
        None
    }
}

/// Reads the message that the frame `s` holds behind its version byte: the
/// kind, the request number, the sender, the payload, and nothing more.
pub open spec fn parse_body(s: Seq<u8>) -> Option<MessageView> {
    if s.len() < 10 {
        None
    } else {
        match parse_contact(s.skip(10)) {
            Some((sender, a)) => match parse_payload(s[1], s.skip(10 + a)) {
                Some((message_type, b)) => if 10 + a + b == s.len() {
                    Some(
                        MessageView {
                            message_type,
                            sender,
                            request_id: be_value(s.subrange(2, 10)) as u64,
                        },
                    )
                } else {
                    None
                },
                None => None,
            },
            None => None,
        }
    }
}

/// What `decode` makes of the bytes `s`.
pub open spec fn parse_message(s: Seq<u8>) -> Result<MessageView, CodecError> {
    if s.len() > MAX_FRAME_BYTES {
        Err(CodecError::TooLarge)
    } else if s.len() == 0 {
        Err(CodecError::Malformed)
    } else if s[0] != PROTOCOL_VERSION {
        Err(CodecError::UnknownVersion)
    } else {
        match parse_body(s) {
            Some(m) => Ok(m),
            None => Err(CodecError::Malformed),
        }
    }
}

/// Calls `String::from_utf8` on a copy of `bytes`. Trusted, as std
/// documents it: the call succeeds exactly on well-formed UTF-8, and the
/// text it gives is the one those bytes encode.
#[verifier::external_body]
fn text_from_utf8(bytes: &[u8]) -> (r: Option<String>)
    ensures
        r is Some <==> valid_utf8(bytes@),
        r matches Some(text) ==> text@ == decode_utf8(bytes@),
{
    match String::from_utf8(bytes.to_vec()) {
        Ok(text) => Some(text),
        Err(_) => None,
    }
}

fn read_array<const N: usize>(bytes: &[u8], pos: usize) -> (a: [u8; N])
    requires
        pos + N <= bytes@.len(),
    ensures
        a@ == bytes@.subrange(pos as int, pos + N),
        a == array_of::<N>(bytes@.subrange(pos as int, pos + N)),
{
    let mut a = [0u8; N];
    let mut i: usize = 0;
    let n = bytes.len();
    while i < N
        invariant
            i <= N,
            pos + N <= bytes@.len(),
            bytes@.len() == n,
            a@.len() == N,
            forall|j: int| 0 <= j < i ==> a@[j] == bytes@[pos + j],
        decreases N - i,
    {
        a[i] = bytes[pos + i];
        i += 1;
    }
    proof {
        assert(a@ =~= bytes@.subrange(pos as int, pos + N));
        lemma_array_of::<N>(bytes@.subrange(pos as int, pos + N));
    }
    a
}

fn read_contact(bytes: &[u8], pos: usize) -> (r: Option<(Contact, usize)>)
    requires
        pos <= bytes@.len(),
    ensures
        match parse_contact(bytes@.skip(pos as int)) {
            Some((c, n)) => r matches Some((found, next)) && found == c && next == pos + n && 0 <= n
                && next <= bytes@.len(),
            None => r is None,
        },
{
    reveal(parse_contact);
    let n = bytes.len();
    let ghost s = bytes@.skip(pos as int);
    if n - pos < 21 {
        return None;
    }
    let kind = bytes[pos + 20];
    assert(s[20] == kind);
    assert(s.subrange(0, 20) =~= bytes@.subrange(pos as int, pos + 20));
    if kind == 4 && n - pos >= 27 {
        assert(s.subrange(21, 25) =~= bytes@.subrange(pos + 21, pos + 21 + 4));
        assert(s.subrange(25, 27) =~= bytes@.subrange(pos + 25, pos + 25 + 2));
        let node_id = SHA(read_array::<20>(bytes, pos));
        let ip_address = IpAddress::V4(read_array::<4>(bytes, pos + 21));
        let port = read_be(bytes, pos + 25, 2);
        proof {
            lemma_pow256_values();
        }
        Some((Contact { node_id, ip_address, port: port as u16 }, pos + 27))
    } else if kind == 6 && n - pos >= 39 {
        assert(s.subrange(21, 37) =~= bytes@.subrange(pos + 21, pos + 21 + 16));
        assert(s.subrange(37, 39) =~= bytes@.subrange(pos + 37, pos + 37 + 2));
        let node_id = SHA(read_array::<20>(bytes, pos));
        let ip_address = IpAddress::V6(read_array::<16>(bytes, pos + 21));
        let port = read_be(bytes, pos + 37, 2);
        proof {
            lemma_pow256_values();
        }
        Some((Contact { node_id, ip_address, port: port as u16 }, pos + 39))
    } else {
        None
    }
}

/// Once the contacts cannot be read, reading more of them cannot either.
proof fn lemma_parse_contacts_fails(s: Seq<u8>, failed: nat, count: nat)
    requires
        failed <= count,
        parse_contacts(s, failed) is None,
    ensures
        parse_contacts(s, count) is None,
    decreases count,
{
    if failed < count {
        lemma_parse_contacts_fails(s, failed, (count - 1) as nat);
    }
}

fn read_nodes(bytes: &[u8], pos: usize) -> (r: Option<(Vec<Contact>, usize)>)
    requires
        pos <= bytes@.len(),
    ensures
        match parse_nodes(bytes@.skip(pos as int)) {
            Some((nodes, n)) => r matches Some((v, next)) && v@ == nodes && next == pos + n && 0 <= n && next <= bytes@.len(),
            None => r is None,
        },
{
    reveal(parse_nodes);
    let n = bytes.len();
    let ghost s = bytes@.skip(pos as int);
    if n - pos < 2 {
        return None;
    }
    assert(s.subrange(0, 2) =~= bytes@.subrange(pos as int, pos + 2));
    let count = read_be(bytes, pos, 2);
    let ghost body = s.skip(2);
    let start = pos + 2;
    let mut at: usize = start;
    let mut nodes: Vec<Contact> = Vec::new();
    let mut i: u64 = 0;
    while i < count
        invariant
            i <= count,
            start == pos + 2,
            start <= at <= bytes@.len(),
            bytes@.len() == n,
            body == bytes@.skip(pos as int).skip(2),
            bytes@.skip(pos as int).len() >= 2,
            count == be_value(bytes@.skip(pos as int).subrange(0, 2)),
            parse_contacts(body, i as nat) == Some((nodes@, at - start)),
        decreases count - i,
    {
        assert(body.skip(at - start) =~= bytes@.skip(at as int));
        match read_contact(bytes, at) {
            Some((c, next)) => {
                nodes.push(c);
                at = next;
            },
            None => {
                proof {
                    reveal(parse_nodes);
                    assert(parse_contacts(body, (i + 1) as nat) is None);
                    lemma_parse_contacts_fails(body, (i + 1) as nat, count as nat);
                }
                return None;
            },
        }
        i += 1;
    }
    Some((nodes, at))
}

fn read_text(bytes: &[u8], pos: usize) -> (r: Option<(String, usize)>)
    requires
        pos <= bytes@.len(),
    ensures
        match parse_text(bytes@.skip(pos as int)) {
            Some((text, n)) => r matches Some((t, next)) && t@ == text && next == pos + n && 0 <= n && next <= bytes@.len(),
            None => r is None,
        },
{
    reveal(parse_text);
    let n = bytes.len();
    let ghost s = bytes@.skip(pos as int);
    if n - pos < 4 {
        return None;
    }
    assert(s.subrange(0, 4) =~= bytes@.subrange(pos as int, pos + 4));
    let len = read_be(bytes, pos, 4);
    if ((n - pos - 4) as u64) < len {
        return None;
    }
    let start = pos + 4;
    let end = start + len as usize;
    let body = slice_subrange(bytes, start, end);
    assert(body@ =~= s.subrange(4, 4 + len));
    match text_from_utf8(body) {
        Some(text) => Some((text, end)),
        None => None,
    }
}

fn read_option_text(bytes: &[u8], pos: usize) -> (r: Option<(Option<String>, usize)>)
    requires
        pos <= bytes@.len(),
    ensures
        match parse_option_text(bytes@.skip(pos as int)) {
            Some((value, n)) => r matches Some((v, next)) && text_view(v) == value && next == pos + n && 0 <= n && next <= bytes@.len(),
            None => r is None,
        },
{
    reveal(parse_option_text);
    let n = bytes.len();
    let ghost s = bytes@.skip(pos as int);
    if n - pos < 1 {
        return None;
    }
    let flag = bytes[pos];
    assert(s[0] == flag);
    if flag == 0 {
        Some((None, pos + 1))
    } else if flag == 1 {
        assert(s.skip(1) =~= bytes@.skip(pos + 1));
        match read_text(bytes, pos + 1) {
            Some((text, next)) => Some((Some(text), next)),
            None => None,
        }
    } else {
        None
    }
}

fn read_id(bytes: &[u8], pos: usize) -> (r: Option<(SHA, usize)>)
    requires
        pos <= bytes@.len(),
    ensures
        match parse_id(bytes@.skip(pos as int)) {
            Some((id, n)) => r matches Some((found, next)) && found == id && next == pos + n && 0 <= n
                && next <= bytes@.len(),
            None => r is None,
        },
{
    reveal(parse_id);
    let n = bytes.len();
    let ghost s = bytes@.skip(pos as int);
    if n - pos < 20 {
        return None;
    }
    assert(s.subrange(0, 20) =~= bytes@.subrange(pos as int, pos + 20));
    Some((SHA(read_array::<20>(bytes, pos)), pos + 20))
}

fn read_payload(tag: u8, bytes: &[u8], pos: usize) -> (r: Option<(MessageType, usize)>)
    requires
        pos <= bytes@.len(),
    ensures
        match parse_payload(tag, bytes@.skip(pos as int)) {
            Some((kind, n)) => r matches Some((k, next)) && k@ == kind && next == pos + n && 0 <= n && next <= bytes@.len(),
            None => r is None,
        },
{
    let ghost s = bytes@.skip(pos as int);
    if tag == 0 {
        Some((MessageType::Ping, pos))
    } else if tag == 1 {
        Some((MessageType::Pong, pos))
    } else if tag == 2 {
        let (key, a) = match read_text(bytes, pos) {
            Some(found) => found,
            None => { return None; },
        };
        assert(s.skip(a - pos) =~= bytes@.skip(a as int));
        let (value, b) = match read_text(bytes, a) {
            Some(found) => found,
            None => { return None; },
        };
        assert(parse_payload(tag, s) == Some(
            (MessageTypeView::Store { key: key@, value: value@ }, b - pos),
        ));
        Some((MessageType::Store { key, value }, b))
    } else if tag == 3 {
        let (key, a) = match read_text(bytes, pos) {
            Some(found) => found,
            None => { return None; },
        };
        assert(parse_payload(tag, s) == Some((MessageTypeView::FindValue { key: key@ }, a - pos)));
        Some((MessageType::FindValue { key }, a))
    } else if tag == 4 {
        let (wanted_id, a) = match read_id(bytes, pos) {
            Some(found) => found,
            None => { return None; },
        };
        assert(parse_payload(tag, s) == Some((MessageTypeView::FindNode { wanted_id }, a - pos)));
        Some((MessageType::FindNode { wanted_id }, a))
    } else if tag == 5 {
        let (nodes, a) = match read_nodes(bytes, pos) {
            Some(found) => found,
            None => { return None; },
        };
        assert(s.skip(a - pos) =~= bytes@.skip(a as int));
        let (target, b) = match read_id(bytes, a) {
            Some(found) => found,
            None => { return None; },
        };
        assert(parse_payload(tag, s) == Some(
            (MessageTypeView::FindNodeResponse { nodes: nodes@, target }, b - pos),
        ));
        Some((MessageType::FindNodeResponse { nodes, target }, b))
    } else if tag == 6 {
        let (value, a) = match read_option_text(bytes, pos) {
            Some(found) => found,
            None => { return None; },
        };
        assert(s.skip(a - pos) =~= bytes@.skip(a as int));
        let (nodes, b) = match read_nodes(bytes, a) {
            Some(found) => found,
            None => { return None; },
        };
        assert(s.skip(a - pos).skip(b - a) =~= bytes@.skip(b as int));
        assert(s.skip(b - pos) =~= bytes@.skip(b as int));
        let (key, c) = match read_text(bytes, b) {
            Some(found) => found,
            None => { return None; },
        };
        assert(parse_payload(tag, s) == Some(
            (
                MessageTypeView::FindValueResponse {
                    value: text_view(value),
                    nodes: nodes@,
                    key: key@,
                },
                c - pos,
            ),
        ));
        Some((MessageType::FindValueResponse { value, nodes, key }, c))
    } else {
        None
    }
}

/// The message that the frame `bytes` holds. A frame longer than
/// `MAX_FRAME_BYTES` is refused as too large, one that does not start
/// with this protocol's version as of an unknown version, and one whose
/// other bytes are not exactly one message as malformed.
pub fn decode(bytes: &[u8]) -> (r: Result<Message, CodecError>)
    ensures
        match parse_message(bytes@) {
            Ok(m) => r matches Ok(message) && message@ == m,
            Err(e) => r matches Err(error) && error == e,
        },
{
    let n = bytes.len();
    if n > MAX_FRAME_BYTES {
        return Err(CodecError::TooLarge);
    }
    if n == 0 {
        return Err(CodecError::Malformed);
    }
    if bytes[0] != PROTOCOL_VERSION {
        return Err(CodecError::UnknownVersion);
    }
    if n < 10 {
        return Err(CodecError::Malformed);
    }
    let tag = bytes[1];
    let request_id = read_be(bytes, 2, 8);
    match read_contact(bytes, 10) {
        Some((sender, a)) => match read_payload(tag, bytes, a) {
            Some((message_type, b)) => {
                if b == n {
                    Ok(Message { message_type, sender, request_id })
                } else {
                    Err(CodecError::Malformed)
                }
            },
            None => Err(CodecError::Malformed),
        },
        None => Err(CodecError::Malformed),
    }
}

/// A contact takes 27 or 39 bytes on the wire.
pub proof fn lemma_wire_contact_len(c: Contact)
    ensures
        wire_contact(c).len() == 27 || wire_contact(c).len() == 39,
{
    broadcast use vstd::array::array_len_matches_n;

    lemma_be_bytes_len(c.port as nat, 2);
}

/// Contacts on the wire take at least 27 bytes each.
pub proof fn lemma_wire_contacts_len(nodes: Seq<Contact>)
    ensures
        wire_contacts(nodes).len() >= 27 * nodes.len(),
    decreases nodes.len(),
{
    if nodes.len() > 0 {
        lemma_wire_contacts_len(nodes.drop_last());
        lemma_wire_contact_len(nodes.last());
    }
}

/// A contact written and read back is the same contact, whatever follows
/// it.
pub proof fn lemma_contact_round_trip(c: Contact, rest: Seq<u8>)
    ensures
        parse_contact(wire_contact(c) + rest) == Some((c, wire_contact(c).len() as int)),
{
    broadcast use vstd::array::array_len_matches_n;

    reveal(parse_contact);
    lemma_be_bytes_len(c.port as nat, 2);
    lemma_pow256_values();
    lemma_be_value_of_bytes(c.port as nat, 2);
    let s = wire_contact(c) + rest;
    assert(s.subrange(0, 20) =~= c.id());
    lemma_array_of::<20>(c.id());
    match c.ip_address {
        IpAddress::V4(a) => {
            assert(s[20] == 4);
            assert(s.subrange(21, 25) =~= a@);
            assert(s.subrange(25, 27) =~= be_bytes(c.port as nat, 2));
            lemma_array_of::<4>(a@);
        },
        IpAddress::V6(a) => {
            assert(s[20] == 6);
            assert(s.subrange(21, 37) =~= a@);
            assert(s.subrange(37, 39) =~= be_bytes(c.port as nat, 2));
            lemma_array_of::<16>(a@);
        },
    }
}

/// Contacts written one behind the other and read back are the same
/// contacts.
pub proof fn lemma_contacts_round_trip(nodes: Seq<Contact>, rest: Seq<u8>)
    ensures
        parse_contacts(wire_contacts(nodes) + rest, nodes.len()) == Some(
            (nodes, wire_contacts(nodes).len() as int),
        ),
    decreases nodes.len(),
{
    let s = wire_contacts(nodes) + rest;
    if nodes.len() > 0 {
        let init = nodes.drop_last();
        let last = nodes.last();
        let tail = wire_contact(last) + rest;
        assert(s =~= wire_contacts(init) + tail);
        lemma_contacts_round_trip(init, tail);
        let used = wire_contacts(init).len() as int;
        assert(s.skip(used) =~= tail);
        lemma_contact_round_trip(last, rest);
        assert(init.push(last) =~= nodes);
    } else {
        assert(nodes =~= Seq::<Contact>::empty());
    }
}

/// A list of contacts written and read back is the same list.
pub proof fn lemma_nodes_round_trip(nodes: Seq<Contact>, rest: Seq<u8>)
    requires
        nodes.len() < 0x1_0000,
    ensures
        parse_nodes(wire_nodes(nodes) + rest) == Some((nodes, wire_nodes(nodes).len() as int)),
{
    reveal(parse_nodes);
    lemma_pow256_values();
    lemma_be_value_of_bytes(nodes.len(), 2);
    let s = wire_nodes(nodes) + rest;
    assert(s.subrange(0, 2) =~= be_bytes(nodes.len(), 2));
    assert(s.skip(2) =~= wire_contacts(nodes) + rest);
    lemma_contacts_round_trip(nodes, rest);
}

/// A text written and read back is the same text.
pub proof fn lemma_text_round_trip(text: Seq<char>, rest: Seq<u8>)
    requires
        encode_utf8(text).len() < 0x1_0000_0000,
    ensures
        parse_text(wire_text(text) + rest) == Some((text, wire_text(text).len() as int)),
{
    broadcast use vstd::utf8::encode_utf8_valid_utf8;
    broadcast use vstd::utf8::encode_utf8_decode_utf8;

    reveal(parse_text);
    lemma_pow256_values();
    let body = encode_utf8(text);
    lemma_be_value_of_bytes(body.len(), 4);
    let s = wire_text(text) + rest;
    assert(s.subrange(0, 4) =~= be_bytes(body.len(), 4));
    assert(s.subrange(4, 4 + body.len() as int) =~= body);
}

/// An optional text written and read back is the same.
pub proof fn lemma_option_text_round_trip(value: Option<Seq<char>>, rest: Seq<u8>)
    requires
        value matches Some(text) ==> encode_utf8(text).len() < 0x1_0000_0000,
    ensures
        parse_option_text(wire_option_text(value) + rest) == Some(
            (value, wire_option_text(value).len() as int),
        ),
{
    reveal(parse_option_text);
    let s = wire_option_text(value) + rest;
    match value {
        Some(text) => {
            assert(s[0] == 1);
            assert(s.skip(1) =~= wire_text(text) + rest);
            lemma_text_round_trip(text, rest);
        },
        None => {
            assert(s[0] == 0);
        },
    }
}

/// An identifier written and read back is the same identifier.
pub proof fn lemma_id_round_trip(id: SHA, rest: Seq<u8>)
    ensures
        parse_id(id@ + rest) == Some((id, 20int)),
{
    broadcast use vstd::array::array_len_matches_n;

    reveal(parse_id);
    let s = id@ + rest;
    assert(s.subrange(0, 20) =~= id@);
    lemma_array_of::<20>(id@);
}

/// True when the texts and lists that a message carries are short enough
/// for their lengths to be written down.
pub open spec fn fits(kind: MessageTypeView) -> bool {
    match kind {
        MessageTypeView::Ping => true,
        MessageTypeView::Pong => true,
        MessageTypeView::Store { key, value } => encode_utf8(key).len() < 0x1_0000_0000
            && encode_utf8(value).len() < 0x1_0000_0000,
        MessageTypeView::FindValue { key } => encode_utf8(key).len() < 0x1_0000_0000,
        MessageTypeView::FindNode { wanted_id } => true,
        MessageTypeView::FindNodeResponse { nodes, target } => nodes.len() < 0x1_0000,
        MessageTypeView::FindValueResponse { value, nodes, key } => {
            &&& nodes.len() < 0x1_0000
            &&& encode_utf8(key).len() < 0x1_0000_0000
            &&& (value matches Some(text) ==> encode_utf8(text).len() < 0x1_0000_0000)
        },
    }
}

/// What a message carries, written and read back under the message's
/// kind, is the same.
pub proof fn lemma_payload_round_trip(kind: MessageTypeView, rest: Seq<u8>)
    requires
        fits(kind),
    ensures
        parse_payload(tag_of(kind), wire_payload(kind) + rest) == Some(
            (kind, wire_payload(kind).len() as int),
        ),
{
    let s = wire_payload(kind) + rest;
    match kind {
        MessageTypeView::Ping => {},
        MessageTypeView::Pong => {},
        MessageTypeView::Store { key, value } => {
            let tail = wire_text(value) + rest;
            assert(s =~= wire_text(key) + tail);
            lemma_text_round_trip(key, tail);
            assert(s.skip(wire_text(key).len() as int) =~= tail);
            lemma_text_round_trip(value, rest);
        },
        MessageTypeView::FindValue { key } => {
            lemma_text_round_trip(key, rest);
        },
        MessageTypeView::FindNode { wanted_id } => {
            lemma_id_round_trip(wanted_id, rest);
        },
        MessageTypeView::FindNodeResponse { nodes, target } => {
            let tail = target@ + rest;
            assert(s =~= wire_nodes(nodes) + tail);
            lemma_nodes_round_trip(nodes, tail);
            assert(s.skip(wire_nodes(nodes).len() as int) =~= tail);
            lemma_id_round_trip(target, rest);
        },
        MessageTypeView::FindValueResponse { value, nodes, key } => {
            let tail2 = wire_text(key) + rest;
            let tail1 = wire_nodes(nodes) + tail2;
            assert(s =~= wire_option_text(value) + tail1);
            lemma_option_text_round_trip(value, tail1);
            let a = wire_option_text(value).len() as int;
            assert(s.skip(a) =~= tail1);
            lemma_nodes_round_trip(nodes, tail2);
            let b = wire_nodes(nodes).len() as int;
            assert(s.skip(a + b) =~= tail2);
            lemma_text_round_trip(key, rest);
        },
    }
}

/// A message whose frame is within the limit carries nothing too long to
/// be written down.
pub proof fn lemma_frame_fits(m: MessageView)
    requires
        wire_message(m).len() <= MAX_FRAME_BYTES,
    ensures
        fits(m.message_type),
{
    match m.message_type {
        MessageTypeView::FindNodeResponse { nodes, target } => {
            lemma_wire_contacts_len(nodes);
        },
        MessageTypeView::FindValueResponse { value, nodes, key } => {
            lemma_wire_contacts_len(nodes);
        },
        _ => {},
    }
}

/// Decoding the frame of a message gives the message back: for every
/// message whose frame is within the limit, `decode` accepts what `encode`
/// produced and returns a message with the same content.
pub proof fn lemma_decode_encode(m: MessageView)
    requires
        wire_message(m).len() <= MAX_FRAME_BYTES,
    ensures
        parse_message(wire_message(m)) == Ok::<MessageView, CodecError>(m),
{
    lemma_frame_fits(m);
    let s = wire_message(m);
    let id = be_bytes(m.request_id as nat, 8);
    let sender = wire_contact(m.sender);
    let payload = wire_payload(m.message_type);
    lemma_be_bytes_len(m.request_id as nat, 8);
    lemma_pow256_values();
    lemma_be_value_of_bytes(m.request_id as nat, 8);
    assert(s.subrange(2, 10) =~= id);
    assert(s.skip(10) =~= sender + payload);
    lemma_contact_round_trip(m.sender, payload);
    assert(s.skip(10 + sender.len() as int) =~= payload + Seq::<u8>::empty());
    lemma_payload_round_trip(m.message_type, Seq::empty());
}

} // verus!
