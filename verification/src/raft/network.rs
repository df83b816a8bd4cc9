//! Addresses of the Raft peers this node talks to.

use vstd::prelude::*;
use crate::text::push_str;
use crate::topology::string_from;

verus! {

/// Opens connections to peers.
pub struct EngRaftNetwork;

/// A connection to one peer, by its gRPC address ("host:port").
pub struct EngRaftNetworkConnection {
    pub target_addr: String,
}

impl EngRaftNetwork {
    /// The connection for a peer at `addr`; nothing is dialled until a call is made.
    pub fn new_client(&self, addr: &str) -> (c: EngRaftNetworkConnection)
        ensures
            c.target_addr@ == addr@,
    {
        EngRaftNetworkConnection { target_addr: string_from(addr) }
    }
}

impl EngRaftNetworkConnection {
    /// The URI the peer is reached at.
    pub fn endpoint(&self) -> (r: String)
        ensures
            r@ == "http://"@ + self.target_addr@,
    {
        let mut r = string_from("http://");
        push_str(&mut r, self.target_addr.as_str());
        r
    }
}

} // verus!
