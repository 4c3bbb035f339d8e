//! A peer-to-peer epidemic broadcast and cluster-membership engine.
//!
//! Each participant keeps a partial view of its peers split into an eager
//! and a lazy set, disseminates broadcasts with duplicate suppression,
//! maintains a topology graph that is periodically checked for
//! spanning-tree optimality, and derives a three-level health signal from
//! peer reachability. All mutation is serialized through a single actor
//! state machine; the network transport is an external collaborator that
//! exchanges plain events and commands with the core.

pub mod actor;
pub mod graph;
pub mod health;
pub mod log;
pub mod node;
pub mod view;

pub use actor::ActorStatus;
pub use actor::Command;
pub use actor::ServerMsg;
pub use actor::ShutdownReason;
pub use actor::State;
pub use actor::TimerKind;
pub use graph::Edge;
pub use graph::Graph;
pub use graph::Vertex;
pub use health::Health;
pub use log::Broadcast;
pub use log::BroadcastId;
pub use log::DisseminationLog;
pub use log::ReceiveOutcome;
pub use node::Addr;
pub use node::GossipError;
pub use node::GossipResult;
pub use node::Node;
pub use view::AdmitOutcome;
pub use view::PeerView;
