//! Node configuration: the ports to bind, the bucket capacity, the poll
//! interval, and the peers to greet at startup.

use vstd::prelude::*;

verus! {

/// The knobs a node starts with.
pub struct Config {
    pub network_port: u16,
    pub api_port: Option<u16>,
    pub k_val: usize,
    pub async_poll_interval: u32,
    pub initial_neighbors: Vec<String>,
}

impl Config {
    /// A configuration with the network port set to `port` and every
    /// other field at its default value.
    pub fn default_with_port(port: u16) -> (r: Config)
        ensures
            r.network_port == port,
            r.api_port is None,
            r.k_val == 8,
            r.async_poll_interval == 300,
            r.initial_neighbors@.len() == 0,
    {
        Config {
            network_port: port,
            api_port: None,
            k_val: 8,
            async_poll_interval: 300,
            initial_neighbors: Vec::new(),
        }
    }
}

} // verus!
