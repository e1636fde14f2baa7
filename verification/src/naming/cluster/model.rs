//! What the nodes of the naming cluster say to each other, and where a naming
//! write is sent.

use std::sync::Arc;
use vstd::prelude::*;
use crate::text::share;

verus! {

/// The node that owns a naming write: this one, or a peer at an address. Both
/// carry the owner's position among the valid nodes.
#[derive(Debug)]
pub enum NamingRouteAddr {
    Local(u64),
    Remote(u64, Arc<String>),
}

/// A request from one node of the naming cluster to another.
#[derive(Debug)]
pub enum NamingRouteRequest {
    /// A sign of life from the node with the given id.
    Ping(u64),
    /// A naming command for the node that owns it, already encoded.
    Forward(Vec<u8>),
}

impl Clone for NamingRouteAddr {
    fn clone(&self) -> (r: Self)
        ensures
            match (*self, r) {
                (NamingRouteAddr::Local(a), NamingRouteAddr::Local(b)) => a == b,
                (NamingRouteAddr::Remote(a, x), NamingRouteAddr::Remote(b, y)) => a == b && x@
                    == y@,
                _ => false,
            },
    {
        match self {
            NamingRouteAddr::Local(index) => NamingRouteAddr::Local(*index),
            NamingRouteAddr::Remote(index, addr) => NamingRouteAddr::Remote(*index, share(addr)),
        }
    }
}

impl Clone for NamingRouteRequest {
    fn clone(&self) -> (r: Self)
        ensures
            match (*self, r) {
                (NamingRouteRequest::Ping(a), NamingRouteRequest::Ping(b)) => a == b,
                (NamingRouteRequest::Forward(x), NamingRouteRequest::Forward(y)) => x@ == y@,
                _ => false,
            },
    {
        match self {
            NamingRouteRequest::Ping(id) => NamingRouteRequest::Ping(*id),
            NamingRouteRequest::Forward(body) => NamingRouteRequest::Forward(body.clone()),
        }
    }
}

/// A request with the peers that are to receive it.
pub struct Broadcast {
    pub request: NamingRouteRequest,
    pub targets: Vec<u64>,
}

} // verus!
