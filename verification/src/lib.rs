//! A peer node core for a Kademlia-style distributed hash table:
//! XOR distance metric, k-bucket routing table, binary wire protocol,
//! and an iterative lookup coordinator.

use vstd::prelude::*;

pub mod api_layer;
pub mod config;
pub mod fmt_utils;
pub mod identity;
pub mod lookup;
pub mod message_protocol;
pub mod node;
pub mod utils;

verus! {

/// Width of a node identifier, in bytes.
pub const KEY_WIDTH: usize = 20;

/// Number of k-buckets in a routing table: one per possible bucket index.
pub const NUM_BUCKETS: usize = 161;

} // verus!
