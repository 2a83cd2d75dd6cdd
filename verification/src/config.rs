use vstd::prelude::*;

verus! {

/// Width of an identifier in bits.
pub const ID_BITS: usize = 160;

/// Width of an identifier in bytes.
pub const ID_BYTES: usize = 20;

/// Capacity of one bucket, and the number of contacts a lookup keeps.
pub const K: usize = 20;

/// Number of probes a lookup round sends at most.
pub const ALPHA: usize = 3;

/// Upper bound on the number of rounds of one lookup.
pub const MAX_ROUNDS: usize = 20;

/// How long a probe may stay unanswered, in milliseconds.
pub const RPC_TIMEOUT_MS: u64 = 2000;

/// Largest frame the codec produces or accepts, in bytes.
pub const MAX_FRAME_BYTES: usize = 8192;

/// Version tag carried by the first byte of every frame.
pub const PROTOCOL_VERSION: u8 = 1;

} // verus!
