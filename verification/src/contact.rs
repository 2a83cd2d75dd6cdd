use crate::distance::Distance;
use crate::sha::{lemma_distance_to, SHA};
use vstd::prelude::*;

verus! {

/// A network address of a peer, as the bytes of an IPv4 or IPv6 address in
/// network order.
#[derive(Copy, Clone, Debug, PartialEq, Eq, Hash)]
pub enum IpAddress {
    V4([u8; 4]),
    V6([u8; 16]),
}

/// A peer: its identifier and where it was last reached. Two contacts with
/// one identifier are the same peer, whatever their addresses.
#[derive(Copy, Clone, Debug)]
pub struct Contact {
    pub node_id: SHA,
    pub ip_address: IpAddress,
    pub port: u16,
}

impl Contact {
    /// The identifier as bytes.
    pub open spec fn id(self) -> Seq<u8> {
        self.node_id@
    }

    /// True when both contacts name the same peer.
    pub fn same_node(&self, other: &Contact) -> (r: bool)
        ensures
            r == (self.id() == other.id()),
    {
        self.node_id == other.node_id
    }
}

impl core::ops::BitXor for Contact {
    type Output = Distance;

    fn bitxor(self, rhs: Contact) -> (d: Distance) {
        let d = Distance::new(&self.node_id, &rhs.node_id);
        proof {
            lemma_distance_to(self.node_id, rhs.node_id);
        }
        d
    }
}

impl vstd::std_specs::ops::BitXorSpecImpl for Contact {
    open spec fn obeys_bitxor_spec() -> bool {
        true
    }

    open spec fn bitxor_req(self, rhs: Contact) -> bool {
        true
    }

    open spec fn bitxor_spec(self, rhs: Contact) -> Distance {
        self.node_id.distance_to(rhs.node_id)
    }
}

} // verus!
