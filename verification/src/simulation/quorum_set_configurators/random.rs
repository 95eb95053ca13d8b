//! A configurator that fills quorum sets with validators chosen at random.

use crate::enumeration::lemma_node_set_finite;
use crate::fbas::{
    count_satisfied, lemma_count_present_all, lemma_count_present_bounded, Fbas, NodeId,
    QuorumSet,
};
use crate::identifiers::{free_ids, lemma_free_ids, lemma_free_ids_len};
use crate::node_set::{members, set_contains, set_insert, set_with_capacity};
use crate::sampling::{choose_multiple, is_sample_of};
use crate::simulation::{ChangeEffect, QuorumSetConfigurator};
use vstd::prelude::*;

verus! {

/// Validators of a system of `n` nodes, none of them twice, stay so when a
/// sample of the free identifiers joins them.
pub proof fn lemma_extension_valid(validators: Seq<NodeId>, sample: Seq<NodeId>, n: nat)
    requires
        n <= usize::MAX,
        validators.no_duplicates(),
        forall|i: int| 0 <= i < validators.len() ==> #[trigger] validators[i] < n,
        is_sample_of(sample, free_ids(validators, n)),
    ensures
        (validators + sample).no_duplicates(),
        forall|i: int| 0 <= i < (validators + sample).len() ==> #[trigger] (validators + sample)[i] < n,
{
    let free = free_ids(validators, n);
    let all = validators + sample;
    lemma_free_ids(validators, n);
    let at = choose|at: Seq<int>|
        #![trigger at.len()]
        {
            &&& at.len() == sample.len()
            &&& at.no_duplicates()
            &&& forall|i: int|
                0 <= i < at.len() ==> 0 <= #[trigger] at[i] < free.len() && sample[i] == free[at[i]]
        };
    assert forall|i: int| 0 <= i < all.len() implies #[trigger] all[i] < n by {
        if i >= validators.len() {
            let k = i - validators.len();
            assert(0 <= at[k] < free.len());
            assert(all[i] == free[at[k]]);
        }
    }
    assert forall|i: int, j: int| 0 <= i < all.len() && 0 <= j < all.len() && i != j implies all[i]
        != all[j] by {
        let len = validators.len() as int;
        if i < len && j < len {
        } else if i >= len && j >= len {
            assert(0 <= at[i - len] < free.len() && 0 <= at[j - len] < free.len());
            assert(at[i - len] != at[j - len]);
            if at[i - len] < at[j - len] {
                assert(free[at[i - len]] < free[at[j - len]]);
            } else {
                assert(free[at[j - len]] < free[at[i - len]]);
            }
        } else if i < len {
            assert(0 <= at[j - len] < free.len());
            assert(!validators.contains(free[at[j - len]]));
        } else {
            assert(0 <= at[i - len] < free.len());
            assert(!validators.contains(free[at[i - len]]));
        }
    }
}

/// Fills quorum sets with validators chosen at random, up to a desired size.
#[derive(Clone, Debug)]
pub struct SimpleRandomQsc {
    desired_quorum_set_size: usize,
    desired_threshold: usize,
    adapt_until_satisfied: bool,
}

impl SimpleRandomQsc {
    /// The number of validators that a quorum set should have.
    pub closed spec fn desired_size(self) -> nat {
        self.desired_quorum_set_size as nat
    }

    /// The threshold that a quorum set should have. Where it exceeds the
    /// number of validators aimed at, that number takes its place.
    pub closed spec fn desired_threshold(self) -> nat {
        self.desired_threshold as nat
    }

    /// Whether a quorum set that is configured, but smaller than desired, is
    /// enlarged.
    pub closed spec fn adapts(self) -> bool {
        self.adapt_until_satisfied
    }

    /// The number of validators to aim at in a system of `n` nodes.
    pub open spec fn size_in(self, n: nat) -> nat {
        if self.desired_size() <= n {
            self.desired_size()
        } else {
            n
        }
    }

    /// The threshold to set in a system of `n` nodes.
    pub open spec fn threshold_in(self, n: nat) -> nat {
        if self.size_in(n) <= self.desired_threshold() {
            self.size_in(n)
        } else {
            self.desired_threshold()
        }
    }

    /// Whether the quorum set `quorum_set` is one to work on: it is not
    /// configured, or it is smaller than desired and this configurator
    /// adapts.
    pub open spec fn wants_more(self, quorum_set: QuorumSet) -> bool {
        (self.adapts() && quorum_set.validators@.len() < self.desired_size())
            || quorum_set.is_unconfigured()
    }

    /// The number of validators that `quorum_set` gains in a system of `n`
    /// nodes, if it is one to work on: as many as it lacks of the number aimed
    /// at, or as many as are free if these are fewer.
    pub open spec fn additions(self, quorum_set: QuorumSet, n: nat) -> nat {
        let free = free_ids(quorum_set.validators@, n).len();
        let lacking = if quorum_set.validators@.len() <= self.size_in(n) {
            (self.size_in(n) - quorum_set.validators@.len()) as nat
        } else {
            0nat
        };
        if lacking <= free {
            lacking
        } else {
            free
        }
    }

    /// Whether the desired threshold exceeds the desired size, so that the
    /// size takes its place.
    pub fn clamps_threshold(&self) -> (r: bool)
        ensures
            r == (self.desired_threshold() > self.desired_size()),
    {
        self.desired_threshold > self.desired_quorum_set_size
    }

    /// A configurator that aims at `desired_quorum_set_size` validators and
    /// the threshold `desired_threshold`, and enlarges quorum sets that are
    /// smaller than desired.
    pub fn new(desired_quorum_set_size: usize, desired_threshold: usize) -> (r: Self)
        ensures
            r.desired_size() == desired_quorum_set_size,
            r.desired_threshold() == desired_threshold,
            r.adapts(),
    {
        SimpleRandomQsc { desired_quorum_set_size, desired_threshold, adapt_until_satisfied: true }
    }

    /// The same configurator, but one that leaves a quorum set alone once it
    /// is configured.
    pub fn never_adapt(self) -> (r: Self)
        ensures
            r.desired_size() == self.desired_size(),
            r.desired_threshold() == self.desired_threshold(),
            !r.adapts(),
    {
        let mut qsc = self;
        qsc.adapt_until_satisfied = false;
        qsc
    }

    /// The identifiers below `n` that are not among `validators`, in
    /// ascending order.
    pub fn available_nodes(validators: &Vec<NodeId>, n: usize) -> (r: Vec<NodeId>)
        requires
            forall|i: int| 0 <= i < validators@.len() ==> #[trigger] validators@[i] < n,
        ensures
            r@ == free_ids(validators@, n as nat),
    {
        let mut used_nodes = set_with_capacity(n);
        let mut i: usize = 0;
        while i < validators.len()
            invariant
                i <= validators@.len(),
                forall|j: int| 0 <= j < validators@.len() ==> #[trigger] validators@[j] < n,
                forall|x: NodeId|
                    members(used_nodes).contains(x) <==> exists|j: int|
                        0 <= j < i && validators@[j] == x,
            decreases validators@.len() - i,
        {
            let ghost before = members(used_nodes);
            set_insert(&mut used_nodes, validators[i]);
            proof {
                assert forall|x: NodeId| members(used_nodes).contains(x) <==> exists|j: int|
                    0 <= j < i + 1 && validators@[j] == x by {
                    if before.contains(x) {
                        let j = choose|j: int| 0 <= j < i && validators@[j] == x;
                        assert(0 <= j < i + 1 && validators@[j] == x);
                    }
                    if exists|j: int| 0 <= j < i + 1 && validators@[j] == x {
                        let j = choose|j: int| 0 <= j < i + 1 && validators@[j] == x;
                        if j < i {
                            assert(before.contains(x));
                        }
                    }
                }
            }
            i += 1;
        }
        let mut available_nodes: Vec<NodeId> = Vec::new();
        let mut x: usize = 0;
        while x < n
            invariant
                x <= n,
                forall|y: NodeId| members(used_nodes).contains(y) <==> validators@.contains(y),
                available_nodes@ == free_ids(validators@, x as nat),
            decreases n - x,
        {
            if !set_contains(&used_nodes, x) {
                available_nodes.push(x);
            }
            x += 1;
        }
        available_nodes
    }

    /// Appends `new_validators` to the validators of node `node_id` and sets
    /// its threshold to `threshold`. Where that changes nothing, the system
    /// is left as it is.
    pub fn extend_quorum_set(
        fbas: &mut Fbas,
        node_id: NodeId,
        new_validators: Vec<NodeId>,
        threshold: usize,
    ) -> (r: ChangeEffect)
        requires
            node_id < old(fbas).nodes@.len(),
        ensures
            old(fbas).differs_only_at(node_id, *final(fbas)),
            ({
                let before = old(fbas).nodes@[node_id as int].quorum_set;
                let after = final(fbas).nodes@[node_id as int].quorum_set;
                &&& after.validators@ == before.validators@ + new_validators@
                &&& after.threshold == threshold
                &&& after.inner_quorum_sets == before.inner_quorum_sets
                &&& (r == ChangeEffect::NoChange) == (new_validators@.len() == 0
                    && before.threshold == threshold)
            }),
            r == ChangeEffect::NoChange ==> *final(fbas) == *old(fbas),
    {
        if new_validators.len() == 0 && fbas.nodes[node_id].quorum_set.threshold == threshold {
            assert(fbas.nodes@[node_id as int].quorum_set.validators@ + new_validators@
                =~= fbas.nodes@[node_id as int].quorum_set.validators@);
            return ChangeEffect::NoChange;
        }
        let mut new_validators = new_validators;
        fbas.nodes[node_id].quorum_set.validators.append(&mut new_validators);
        fbas.nodes[node_id].quorum_set.threshold = threshold;
        ChangeEffect::Change
    }
}

impl SimpleRandomQsc {
    /// Whether every quorum set of `fbas` has the shape that this
    /// configurator keeps and is one that it finds nothing to change in.
    pub open spec fn settled(self, fbas: Fbas) -> bool {
        forall|i: NodeId|
            i < fbas.nodes@.len() ==> self.satisfied(i, fbas) && self.shaped(
                (#[trigger] fbas.nodes@[i as int]).quorum_set,
            )
    }

    /// In a settled system under a configurator that adapts, every quorum
    /// set has at least as many validators as are aimed at, and the threshold
    /// to set.
    pub proof fn lemma_settled_quorum_set(self, fbas: Fbas, i: NodeId)
        requires
            fbas.wf(),
            self.adapts(),
            self.settled(fbas),
            i < fbas.nodes@.len(),
        ensures
            fbas.nodes@[i as int].quorum_set.validators@.len() >= self.size_in(fbas.nodes@.len()),
            fbas.nodes@[i as int].quorum_set.threshold >= self.threshold_in(fbas.nodes@.len()),
            fbas.nodes@[i as int].quorum_set.threshold
                <= fbas.nodes@[i as int].quorum_set.validators@.len(),
            fbas.nodes@[i as int].quorum_set.inner_quorum_sets@.len() == 0,
    {
        let n = fbas.nodes@.len();
        let quorum_set = fbas.nodes@[i as int].quorum_set;
        assert(fbas.nodes.len() == n);
        assert(self.satisfied(i, fbas) && self.shaped(quorum_set));
        assert(quorum_set.wf(n));
        lemma_free_ids_len(quorum_set.validators@, n);
    }

    /// In a settled system under a configurator that adapts and aims at one
    /// validator or more, the set of all nodes is a quorum.
    pub proof fn lemma_settled_whole_is_quorum(self, fbas: Fbas)
        requires
            fbas.wf(),
            self.adapts(),
            self.settled(fbas),
            self.desired_size() > 0,
            fbas.nodes@.len() > 0,
        ensures
            fbas.forms_quorum(Set::new(|x: NodeId| x < fbas.nodes@.len())),
    {
        let n = fbas.nodes@.len();
        let all = Set::new(|x: NodeId| x < n);
        assert(all.contains(0));
        assert forall|x: NodeId| all.contains(x) implies fbas.is_witness(x, all) by {
            let quorum_set = fbas.nodes@[x as int].quorum_set;
            self.lemma_settled_quorum_set(fbas, x);
            assert(quorum_set.wf(n));
            lemma_count_present_all(quorum_set.validators@, all);
            assert(count_satisfied(quorum_set.inner_quorum_sets@, all) >= 0);
        }
    }

    /// In a settled system under a configurator that adapts, no set of fewer
    /// nodes than the threshold to set is a quorum.
    pub proof fn lemma_settled_small_is_no_quorum(self, fbas: Fbas, s: Set<NodeId>)
        requires
            fbas.wf(),
            self.adapts(),
            self.settled(fbas),
            s.len() < self.threshold_in(fbas.nodes@.len()),
        ensures
            !fbas.forms_quorum(s),
    {
        let n = fbas.nodes@.len();
        if fbas.forms_quorum(s) {
            let x = choose|x: NodeId| s.contains(x);
            assert(fbas.is_witness(x, s));
            let quorum_set = fbas.nodes@[x as int].quorum_set;
            self.lemma_settled_quorum_set(fbas, x);
            assert(quorum_set.wf(n));
            lemma_node_set_finite(s);
            lemma_count_present_bounded(quorum_set.validators@, s);
            assert(quorum_set.inner_quorum_sets@ =~= Seq::<QuorumSet>::empty());
            assert(count_satisfied(quorum_set.inner_quorum_sets@, s) == 0);
        }
    }
}

impl QuorumSetConfigurator for SimpleRandomQsc {
    /// Nothing is to change where the quorum set is not one to work on, or
    /// where no identifier is free to join it and its threshold is the one
    /// to set.
    open spec fn satisfied(&self, node_id: NodeId, fbas: Fbas) -> bool {
        let quorum_set = fbas.nodes@[node_id as int].quorum_set;
        let n = fbas.nodes@.len();
        !self.wants_more(quorum_set) || (self.additions(quorum_set, n) == 0 && quorum_set.threshold
            == self.threshold_in(n))
    }

    /// A quorum set has the shape that this configurator keeps if it has no
    /// nested quorum sets and its threshold is the desired one, or the number
    /// of its validators where these are fewer.
    open spec fn shaped(&self, quorum_set: QuorumSet) -> bool {
        &&& quorum_set.inner_quorum_sets@.len() == 0
        &&& quorum_set.threshold == if quorum_set.validators@.len() <= self.desired_threshold() {
            quorum_set.validators@.len()
        } else {
            self.desired_threshold()
        }
    }

    proof fn lemma_unconfigured_shaped(&self, quorum_set: QuorumSet) {
    }

    /// Where the quorum set of `node_id` is one to work on, it gains
    /// validators chosen at random among the nodes that are none yet, until
    /// it has as many as are aimed at, and has its threshold set.
    fn configure(&self, node_id: NodeId, fbas: &mut Fbas) -> (r: ChangeEffect)
        ensures
            self.wants_more(old(fbas).nodes@[node_id as int].quorum_set) ==> {
                let before = old(fbas).nodes@[node_id as int].quorum_set;
                let after = final(fbas).nodes@[node_id as int].quorum_set;
                let n = old(fbas).nodes@.len();
                &&& after.threshold == self.threshold_in(n)
                &&& after.inner_quorum_sets == before.inner_quorum_sets
                &&& after.validators@.len() == before.validators@.len() + self.additions(before, n)
                &&& after.validators@.len() == self.size_in(n)
                &&& is_sample_of(
                    after.validators@.skip(before.validators@.len() as int),
                    free_ids(before.validators@, n),
                )
                &&& after.validators@.take(before.validators@.len() as int) == before.validators@
            },
    {
        let n = fbas.nodes.len();
        let existing_size = fbas.nodes[node_id].quorum_set.validators.len();
        let ghost before = fbas.nodes@[node_id as int].quorum_set;
        if (self.adapt_until_satisfied && existing_size < self.desired_quorum_set_size)
            || fbas.nodes[node_id].quorum_set.is_empty() {
            let quorum_set_size = if self.desired_quorum_set_size <= n {
                self.desired_quorum_set_size
            } else {
                n
            };
            let threshold = if quorum_set_size <= self.desired_threshold {
                quorum_set_size
            } else {
                self.desired_threshold
            };
            assert(before.wf(n as nat));
            let available_nodes = Self::available_nodes(
                &fbas.nodes[node_id].quorum_set.validators,
                n,
            );
            proof {
                lemma_free_ids_len(before.validators@, n as nat);
            }
            let lacking = if existing_size <= quorum_set_size {
                quorum_set_size - existing_size
            } else {
                0
            };
            let new_validators = choose_multiple(&available_nodes, lacking);
            proof {
                lemma_extension_valid(before.validators@, new_validators@, n as nat);
                assert((before.validators@ + new_validators@).skip(before.validators@.len() as int)
                    =~= new_validators@);
                assert((before.validators@ + new_validators@).take(before.validators@.len() as int)
                    =~= before.validators@);
            }
            let r = Self::extend_quorum_set(fbas, node_id, new_validators, threshold);
            proof {
                let after = fbas.nodes@[node_id as int].quorum_set;
                assert(after.wf(n as nat)) by {
                    assert forall|i: int| 0 <= i < after.inner_quorum_sets@.len() implies (
                    #[trigger] after.inner_quorum_sets@[i]).wf(n as nat) by {
                        assert(before.inner_quorum_sets@[i].wf(n as nat));
                    }
                }
                assert forall|j: int| 0 <= j < fbas.nodes@.len() implies (
                #[trigger] fbas.nodes@[j]).quorum_set.wf(fbas.nodes@.len()) by {
                    if j != node_id {
                        assert(old(fbas).nodes@[j].quorum_set.wf(n as nat));
                    }
                }
            }
            r
        } else {
            ChangeEffect::NoChange
        }
    }
}

} // verus!
