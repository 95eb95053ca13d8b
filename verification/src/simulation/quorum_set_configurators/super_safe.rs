//! A configurator under which every node requires the agreement of all
//! nodes.

use crate::fbas::{Fbas, NodeId, QuorumSet};
use crate::identifiers::{identity, range_to};
use crate::simulation::{ChangeEffect, QuorumSetConfigurator};
use vstd::prelude::*;

verus! {

/// Gives every node the quorum set that holds all nodes of the system as
/// validators and has their number as its threshold.
#[derive(Clone, Copy, Debug, Default)]
pub struct SuperSafeQsc;

/// Whether `quorum_set` holds exactly the nodes of a system of `n` nodes as
/// validators, in ascending order, and has the threshold `n`.
pub open spec fn is_super_safe(quorum_set: QuorumSet, n: nat) -> bool {
    &&& quorum_set.threshold == n
    &&& quorum_set.validators@ == identity(n)
    &&& quorum_set.inner_quorum_sets@.len() == 0
}

impl SuperSafeQsc {
    /// The configurator.
    pub fn new() -> (r: Self) {
        SuperSafeQsc
    }

    /// Whether `quorum_set` is the one that this configurator gives in a
    /// system of `n` nodes.
    pub fn is_configured(quorum_set: &QuorumSet, n: usize) -> (r: bool)
        ensures
            r == is_super_safe(*quorum_set, n as nat),
    {
        if quorum_set.threshold != n || quorum_set.validators.len() != n
            || quorum_set.inner_quorum_sets.len() != 0 {
            return false;
        }
        let mut i: usize = 0;
        while i < n
            invariant
                i <= n,
                quorum_set.validators@.len() == n,
                forall|j: int| 0 <= j < i ==> #[trigger] quorum_set.validators@[j] == j,
            decreases n - i,
        {
            if quorum_set.validators[i] != i {
                assert(identity(n as nat)[i as int] == i);
                return false;
            }
            i += 1;
        }
        assert(quorum_set.validators@ =~= identity(n as nat));
        true
    }
}

impl QuorumSetConfigurator for SuperSafeQsc {
    /// Nothing is to change where the quorum set already holds all nodes
    /// and requires them all.
    open spec fn satisfied(&self, node_id: NodeId, fbas: Fbas) -> bool {
        is_super_safe(fbas.nodes@[node_id as int].quorum_set, fbas.nodes@.len())
    }

    /// A quorum set has the shape that this configurator keeps if it is not
    /// configured, or if it holds the nodes of a system as validators and
    /// requires them all.
    open spec fn shaped(&self, quorum_set: QuorumSet) -> bool {
        quorum_set.is_unconfigured() || is_super_safe(quorum_set, quorum_set.validators@.len())
    }

    proof fn lemma_unconfigured_shaped(&self, quorum_set: QuorumSet) {
    }

    /// Gives node `node_id` the quorum set of all nodes with their number as
    /// threshold, unless it has it.
    fn configure(&self, node_id: NodeId, fbas: &mut Fbas) -> (r: ChangeEffect)
        ensures
            is_super_safe(final(fbas).nodes@[node_id as int].quorum_set, old(fbas).nodes@.len()),
    {
        let n = fbas.nodes.len();
        if Self::is_configured(&fbas.nodes[node_id].quorum_set, n) {
            return ChangeEffect::NoChange;
        }
        let ghost before = fbas.nodes@[node_id as int].quorum_set;
        fbas.nodes[node_id].quorum_set = QuorumSet {
            threshold: n,
            validators: range_to(n),
            inner_quorum_sets: Vec::new(),
        };
        proof {
            let after = fbas.nodes@[node_id as int].quorum_set;
            assert(after.wf(n as nat));
            assert forall|j: int| 0 <= j < fbas.nodes@.len() implies (
            #[trigger] fbas.nodes@[j]).quorum_set.wf(fbas.nodes@.len()) by {
                if j != node_id {
                    assert(old(fbas).nodes@[j].quorum_set.wf(n as nat));
                }
            }
        }
        ChangeEffect::Change
    }
}

} // verus!
