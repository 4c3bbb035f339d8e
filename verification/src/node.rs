//! Node identity: a random 128-bit identifier plus a network address.

use vstd::prelude::*;
use vstd::string::StringExecFns;

verus! {

/// A network address: host and port. The transport decides what to do
/// with it; the core only stores and hands it around.
#[derive(Clone, Debug)]
pub struct Addr {
    pub ip: String,
    pub port: u16,
}

impl Addr {
    /// Build an address from a host string and a port.
    pub fn new(ip: &str, port: u16) -> (a: Addr)
        ensures
            a.ip@ == ip@,
            a.port == port,
    {
        Addr { ip: String::from_str(ip), port }
    }
}

/// The identity of one server in the cluster: a unique random id and the
/// address it can be reached at. Identities are plain values; they carry
/// no state of the peer they name, and peers are told apart by `id` alone.
#[derive(Clone, Debug)]
pub struct Node {
    pub id: u128,
    pub addr: Addr,
}

/// Relies on `uuid::Uuid::new_v4`: a version-4 UUID drawn from the
/// process's random source, returned here as its 128-bit value. The result
/// is random, so nothing is promised of it.
#[verifier::external_body]
fn fresh_id() -> u128 {
    uuid::Uuid::new_v4().as_u128()
}

impl Node {
    /// Mint a node identity for the given address with a freshly drawn
    /// random id. This only names the node; no connection is made.
    pub fn new(ip: &str, port: u16) -> (n: Node)
        ensures
            n.addr.ip@ == ip@,
            n.addr.port == port,
    {
        Node { id: fresh_id(), addr: Addr::new(ip, port) }
    }
}

/// Why an operation at the transport edge failed. Duplicate broadcasts and
/// operations on unknown peers are deliberately not errors: the core folds
/// them back into its state machine as no-ops.
#[derive(Clone, Copy, Debug, PartialEq, Eq, Structural)]
pub enum GossipError {
    /// The requested listen address could not be bound.
    BindFailure,
    /// A send to a peer failed; reported back as a reachability event.
    TransportSendFailure,
}

pub type GossipResult<T> = Result<T, GossipError>;

} // verus!
