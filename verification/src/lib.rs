//! Analysis of federated Byzantine agreement systems: the quorum predicate,
//! enumeration of minimal quorums, quorum intersection, and simulated growth
//! of a system under pluggable quorum-set configurators.

pub mod enumeration;
pub mod fbas;
pub mod identifiers;
pub mod node_set;
pub mod permutation;
pub mod quorums;
pub mod renaming;
pub mod sampling;
pub mod simulation;

pub use fbas::{Fbas, Node, NodeId, PublicKey, QuorumSet};
pub use quorums::{all_node_sets_interesect, get_minimal_quorums, has_quorum_intersection};
pub use simulation::quorum_set_configurators::graph::Graph;
pub use simulation::quorum_set_configurators::random::SimpleRandomQsc;
pub use simulation::quorum_set_configurators::super_safe::SuperSafeQsc;
pub use simulation::{
    ChangeEffect, QuorumSetConfigurator, SimulationError, SimulationMonitor, Simulator,
};
