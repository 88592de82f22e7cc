//! The settings of the query server.

use crate::graph::Graph;
use vstd::prelude::*;

verus! {

/// The port on which the server listens unless told otherwise.
pub const DEFAULT_PORT: u16 = 9411;

/// What the query server is started with.
pub struct ServerConfig {
    pub port: u16,
    pub graph: Graph,
}

impl ServerConfig {
    /// The settings of a server for `g` on the default port.
    pub fn new(g: Graph) -> (r: ServerConfig)
        ensures
            r.port == DEFAULT_PORT,
            r.graph == g,
    {
        ServerConfig { port: DEFAULT_PORT, graph: g }
    }
}

} // verus!
