//! The settings of the protocol handlers, as the configuration file gives
//! them.

use vstd::prelude::*;

verus! {

/// Settings of the memcache-style text handler.
#[derive(Debug)]
pub struct MCacheConfig {
    /// Whether the handler is served at all.
    pub enabled: bool,
    /// The addresses to listen on, each as `host:port`.
    pub listen: Vec<String>,
}

/// Settings of every handler.
#[derive(Debug)]
pub struct HandlersConfig {
    pub memcache: MCacheConfig,
}

} // verus!
