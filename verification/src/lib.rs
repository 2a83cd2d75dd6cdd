//! A Kademlia node as a library: 160-bit identifiers under the XOR metric,
//! the routing table of k-buckets, the wire codec, the handler of inbound
//! messages and the iterative lookup. The library decides and computes;
//! sockets, clocks and disks belong to its caller, which hands it bytes
//! and events and carries out what it hands back.

pub mod address;
pub mod bucket;
pub mod bytes;
pub mod codec;
pub mod command;
pub mod config;
pub mod contact;
pub mod distance;
pub mod eviction;
pub mod lookup;
pub mod message_handler;
pub mod nearest;
pub mod network;
pub mod node;
pub mod node_metadata;
pub mod routing_table;
pub mod sha;
pub mod storage;
pub mod text;
