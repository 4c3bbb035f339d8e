//! Cluster health: a three-level signal derived from peer reachability
//! and topology connectivity.

use vstd::prelude::*;

verus! {

/// The current coarse state of the cluster as seen from one node.
///
/// `Green`: every known peer is reachable and the topology graph forms a
/// single connected component covering them.
/// `Yellow`: some peer is unreachable or the graph has split into more
/// than one component, but a majority of known peers is still reachable.
/// `Red`: reachable peers are at or below the majority threshold, or no
/// peers are known at all.
#[derive(Clone, Copy, Debug, PartialEq, Eq, Structural)]
pub enum Health {
    Green,
    Yellow,
    Red,
}

/// What the aggregator must return for `known` peers of which `reachable`
/// respond, with `connected` saying whether the topology graph is a single
/// connected component covering every vertex.
pub open spec fn spec_health(known: int, reachable: int, connected: bool) -> Health {
    if known == 0 {
        Health::Red
    } else if reachable == known && connected {
        Health::Green
    } else if 2 * reachable > known {
        Health::Yellow
    } else {
        Health::Red
    }
}

/// Derive the health signal. Total over its inputs: it never fails.
pub fn compute_health(known: u128, reachable: u128, connected: bool) -> (h: Health)
    requires
        reachable <= known,
    ensures
        h == spec_health(known as int, reachable as int, connected),
{
    if known == 0 {
        Health::Red
    } else if reachable == known && connected {
        Health::Green
    } else if reachable > known / 2 {
        proof {
            assert(reachable > known / 2 ==> 2 * reachable > known) by (nonlinear_arith);
        }
        Health::Yellow
    } else {
        proof {
            assert(reachable <= known / 2 ==> !(2 * reachable > known)) by (nonlinear_arith);
        }
        Health::Red
    }
}

} // verus!
