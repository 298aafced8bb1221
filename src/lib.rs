//! One participant of a gossip-replicated broadcast cluster: node identifiers,
//! the fixed peer topology, per-peer convergence tracking and the decisions of
//! the broadcast node, all as verified logic on plain values.
pub mod convergence;
pub mod ids;
pub mod messages;
pub mod node;
pub mod topology;
pub mod tracker;

pub use ids::{node_group, node_num};
pub use messages::{Body, BroadcastMessages, Message, PartialNode};
pub use node::BroadcastNode;
