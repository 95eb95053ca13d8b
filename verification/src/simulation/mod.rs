//! Simulated growth of a system: nodes join one by one, and after each
//! arrival a quorum-set configurator goes over all nodes until none of them
//! changes its quorum set any more.

pub mod monitors;
pub mod quorum_set_configurators;

use crate::fbas::{Fbas, Node, NodeId, QuorumSet};
use std::rc::Rc;
use vstd::prelude::*;

verus! {

/// What a configurator did to a quorum set.
#[derive(Clone, Copy, Debug, PartialEq, Eq, Structural)]
pub enum ChangeEffect {
    Change,
    NoChange,
}

/// What a monitor is told of.
#[derive(Clone, Copy, Debug, PartialEq, Eq, Structural)]
pub enum Event {
    /// The node with this identifier has joined the system.
    AddNode(NodeId),
    /// The quorum set of the node with this identifier has changed.
    QuorumSetChange(NodeId),
}

/// Why a simulation stopped short.
#[derive(Clone, Copy, Debug, PartialEq, Eq, Structural)]
pub enum SimulationError {
    /// After `MAX_PASSES` passes over all nodes the configurator still
    /// changed a quorum set.
    Nonconvergence,
}

/// How many passes over all nodes the simulator makes after a node has
/// joined before it gives up.
pub const MAX_PASSES: usize = 10000;

/// What the simulator does after a pass over all nodes.
#[derive(Clone, Copy, Debug, PartialEq, Eq, Structural)]
pub enum NextStep {
    /// The pass changed nothing: the system is stable.
    Settle,
    /// The pass changed something: another pass follows.
    Repeat,
    /// The pass changed something and was the last one allowed.
    GiveUp,
}

/// What follows a pass that changed `changes` quorum sets and that
/// `earlier_passes` passes went before since the last node joined.
pub fn after_pass(changes: usize, earlier_passes: usize) -> (r: NextStep)
    ensures
        r == if changes == 0 {
            NextStep::Settle
        } else if earlier_passes + 1 >= MAX_PASSES {
            NextStep::GiveUp
        } else {
            NextStep::Repeat
        },
{
    if changes == 0 {
        NextStep::Settle
    } else if earlier_passes >= MAX_PASSES - 1 {
        NextStep::GiveUp
    } else {
        NextStep::Repeat
    }
}

/// A policy that assigns quorum sets to nodes.
pub trait QuorumSetConfigurator {
    /// Whether the policy finds nothing to change in the quorum set of node
    /// `node_id` of `fbas`.
    spec fn satisfied(&self, node_id: NodeId, fbas: Fbas) -> bool;

    /// Whether `quorum_set` has the shape of the quorum sets that the policy
    /// gives: a quorum set that is not configured has it, and a quorum set
    /// that has it keeps it when the policy works on it.
    spec fn shaped(&self, quorum_set: QuorumSet) -> bool;

    /// A quorum set that is not configured has the shape that the policy
    /// keeps.
    proof fn lemma_unconfigured_shaped(&self, quorum_set: QuorumSet)
        requires
            quorum_set.is_unconfigured(),
        ensures
            self.shaped(quorum_set),
    ;

    /// Brings the quorum set of node `node_id` in line with the policy.
    /// Nothing else in `fbas` changes, and the quorum set changes if and only
    /// if the result is `Change`.
    fn configure(&self, node_id: NodeId, fbas: &mut Fbas) -> (r: ChangeEffect)
        requires
            node_id < old(fbas).nodes@.len(),
            old(fbas).wf(),
        ensures
            final(fbas).wf(),
            old(fbas).differs_only_at(node_id, *final(fbas)),
            (r == ChangeEffect::NoChange) == self.satisfied(node_id, *old(fbas)),
            r == ChangeEffect::NoChange ==> *final(fbas) == *old(fbas),
            r == ChangeEffect::Change ==> !final(fbas).nodes@[node_id as int].quorum_set.same_as(
                old(fbas).nodes@[node_id as int].quorum_set,
            ),
            self.shaped(old(fbas).nodes@[node_id as int].quorum_set) ==> self.shaped(
                final(fbas).nodes@[node_id as int].quorum_set,
            ),
    ;
}

/// Whether `after` is what the policy `qsc` may make of `before` when it
/// works on node `node_id`: a valid system that differs from `before` in the
/// quorum set of that node, and there if and only if the policy was not
/// satisfied with it; the shape that the policy keeps is kept.
pub open spec fn configured<C: QuorumSetConfigurator>(
    qsc: C,
    node_id: NodeId,
    before: Fbas,
    after: Fbas,
) -> bool {
    &&& after.wf()
    &&& before.differs_only_at(node_id, after)
    &&& qsc.satisfied(node_id, before) ==> after == before
    &&& !qsc.satisfied(node_id, before) ==> !after.nodes@[node_id as int].quorum_set.same_as(
        before.nodes@[node_id as int].quorum_set,
    )
    &&& qsc.shaped(before.nodes@[node_id as int].quorum_set) ==> qsc.shaped(
        after.nodes@[node_id as int].quorum_set,
    )
}

/// How many of the first `upto` nodes the policy `qsc` was not satisfied
/// with when it came to them in a pass: `chain[i]` is the system as node `i`
/// was reached.
pub open spec fn count_unsatisfied<C: QuorumSetConfigurator>(
    qsc: C,
    chain: Seq<Fbas>,
    upto: nat,
) -> nat
    decreases upto,
{
    if upto == 0 {
        0
    } else {
        count_unsatisfied(qsc, chain, (upto - 1) as nat) + if qsc.satisfied(
            (upto - 1) as NodeId,
            chain[upto - 1],
        ) {
            0nat
        } else {
            1nat
        }
    }
}

/// Whether `chain` holds the systems of one pass of the policy `qsc` over
/// the nodes of `first`, from `first` to `last`: one system more than there
/// are nodes, each made of the one before by the policy's work on the node
/// of that position.
pub open spec fn is_pass<C: QuorumSetConfigurator>(
    qsc: C,
    first: Fbas,
    chain: Seq<Fbas>,
    last: Fbas,
) -> bool {
    &&& chain.len() == first.nodes@.len() + 1
    &&& chain[0] == first
    &&& chain[first.nodes@.len() as int] == last
    &&& forall|i: int|
        0 <= i < first.nodes@.len() ==> configured(
            qsc,
            i as NodeId,
            #[trigger] chain[i],
            chain[i + 1],
        )
}

/// The count of the nodes that a policy was not satisfied with looks at the
/// systems up to the last of these nodes only.
pub proof fn lemma_count_unsatisfied_prefix<C: QuorumSetConfigurator>(
    qsc: C,
    chain: Seq<Fbas>,
    next: Fbas,
    upto: nat,
)
    requires
        upto <= chain.len(),
    ensures
        count_unsatisfied(qsc, chain.push(next), upto) == count_unsatisfied(qsc, chain, upto),
    decreases upto,
{
    if upto > 0 {
        lemma_count_unsatisfied_prefix(qsc, chain, next, (upto - 1) as nat);
        assert(chain.push(next)[upto - 1] == chain[upto - 1]);
    }
}

/// An observer of what happens in a simulation.
pub trait SimulationMonitor {
    /// Takes note of `event`.
    fn register_event(&self, event: Event);
}

/// The ten digits.
pub open spec fn digits() -> Seq<char> {
    seq!['0', '1', '2', '3', '4', '5', '6', '7', '8', '9']
}

/// The number `n` in decimal digits.
pub open spec fn decimal(n: nat) -> Seq<char>
    decreases n,
{
    if n < 10 {
        seq![digits()[n as int]]
    } else {
        decimal(n / 10).push(digits()[(n % 10) as int])
    }
}

/// The name that the simulator gives to the node with the identifier
/// `node_id`: the letter n and the identifier in decimal digits.
pub open spec fn node_name(node_id: NodeId) -> Seq<char> {
    seq!['n'] + decimal(node_id as nat)
}

/// `format!` of an integer: the number `n` in decimal digits.
#[verifier::external_body]
fn decimal_string(n: usize) -> (r: String)
    ensures
        r@ == decimal(n as nat),
{
    format!("{}", n)
}

/// `String::push_str`: appends `tail` to `s`.
#[verifier::external_body]
fn string_push_str(s: &mut String, tail: &str)
    ensures
        final(s)@ == old(s)@ + tail@,
{
    s.push_str(tail)
}

/// The name of the node with the identifier `node_id`.
fn generic_node_name(node_id: NodeId) -> (r: String)
    ensures
        r@ == node_name(node_id),
{
    let mut name = String::new();
    let digits = decimal_string(node_id);
    proof {
        reveal_strlit("n");
    }
    string_push_str(&mut name, "n");
    string_push_str(&mut name, digits.as_str());
    assert(name@ =~= node_name(node_id));
    name
}

/// A system that grows under a configurator, watched by a monitor.
#[derive(Clone)]
pub struct Simulator<C: QuorumSetConfigurator, M: SimulationMonitor> {
    pub fbas: Fbas,
    pub qsc: Rc<C>,
    pub monitor: Rc<M>,
}

impl<C: QuorumSetConfigurator, M: SimulationMonitor> Simulator<C, M> {
    /// The configurator of this simulator.
    pub open spec fn configurator(self) -> C {
        *self.qsc
    }

    /// Whether the configurator finds nothing to change in any quorum set of
    /// the system.
    pub open spec fn is_stable(self) -> bool {
        forall|i: NodeId|
            i < self.fbas.nodes@.len() ==> #[trigger] self.configurator().satisfied(i, self.fbas)
    }

    /// A simulator that starts from `fbas`.
    pub fn new(fbas: Fbas, qsc: Rc<C>, monitor: Rc<M>) -> (r: Self)
        ensures
            r.fbas == fbas,
            r.qsc == qsc,
            r.monitor == monitor,
    {
        Simulator { fbas, qsc, monitor }
    }

    /// Ends the simulation and hands out the system.
    pub fn finalize(self) -> (r: Fbas)
        ensures
            r == self.fbas,
    {
        self.fbas
    }

    /// One pass of the configurator over all nodes, in the order of their
    /// identifiers: it works on each node in the system as the nodes before
    /// it have left it. The result is the number of quorum sets that changed;
    /// it is zero if and only if the system was stable, and then the system
    /// is as it was.
    pub fn reevaluate_all(&mut self) -> (changes: usize)
        requires
            old(self).fbas.wf(),
        ensures
            final(self).fbas.wf(),
            final(self).configurator() == old(self).configurator(),
            final(self).fbas.nodes@.len() == old(self).fbas.nodes@.len(),
            old(self).fbas.keeps_keys(final(self).fbas),
            exists|chain: Seq<Fbas>|
                #![trigger is_pass(old(self).configurator(), old(self).fbas, chain, final(self).fbas)]
                {
                    &&& is_pass(old(self).configurator(), old(self).fbas, chain, final(self).fbas)
                    &&& changes == count_unsatisfied(
                        old(self).configurator(),
                        chain,
                        old(self).fbas.nodes@.len(),
                    )
                },
            (changes == 0) == old(self).is_stable(),
            changes == 0 ==> final(self).fbas == old(self).fbas,
            forall|i: NodeId|
                i < old(self).fbas.nodes@.len() && (forall|j: NodeId|
                    j < i ==> old(self).configurator().satisfied(j, old(self).fbas)) && !(
                #[trigger] old(self).configurator().satisfied(i, old(self).fbas)) ==> !final(
                    self
                ).fbas.nodes@[i as int].quorum_set.same_as(
                    old(self).fbas.nodes@[i as int].quorum_set,
                ),
            forall|j: int|
                0 <= j < old(self).fbas.nodes@.len() && old(self).configurator().shaped(
                    old(self).fbas.nodes@[j].quorum_set,
                ) ==> old(self).configurator().shaped(
                    (#[trigger] final(self).fbas.nodes@[j]).quorum_set,
                ),
    {
        let n = self.fbas.nodes.len();
        let ghost qsc = self.configurator();
        let ghost first = self.fbas;
        let ghost mut chain: Seq<Fbas> = seq![self.fbas];
        let mut changes: usize = 0;
        let mut node_id: usize = 0;
        while node_id < n
            invariant
                n == self.fbas.nodes@.len(),
                n == first.nodes@.len(),
                first == old(self).fbas,
                qsc == old(self).configurator(),
                node_id <= n,
                changes <= node_id,
                self.fbas.wf(),
                self.configurator() == qsc,
                first.keeps_keys(self.fbas),
                chain.len() == node_id + 1,
                chain[0] == first,
                chain[node_id as int] == self.fbas,
                forall|i: int|
                    0 <= i < node_id ==> configured(
                        qsc,
                        i as NodeId,
                        #[trigger] chain[i],
                        chain[i + 1],
                    ),
                changes == count_unsatisfied(qsc, chain, node_id as nat),
                changes == 0 ==> self.fbas == first,
                changes == 0 ==> forall|i: NodeId|
                    i < node_id ==> #[trigger] qsc.satisfied(i, first),
                changes > 0 ==> exists|j: NodeId| j < node_id && !qsc.satisfied(j, first),
                forall|i: NodeId|
                    i < node_id && (forall|j: NodeId| j < i ==> qsc.satisfied(j, first)) && !(
                    #[trigger] qsc.satisfied(i, first)) ==> !self.fbas.nodes@[i as int].quorum_set.same_as(
                        first.nodes@[i as int].quorum_set,
                    ),
                forall|j: int|
                    0 <= j < n && qsc.shaped(first.nodes@[j].quorum_set) ==> qsc.shaped(
                        (#[trigger] self.fbas.nodes@[j]).quorum_set,
                    ),
            decreases n - node_id,
        {
            let ghost before = self.fbas;
            let ghost changes_before = changes;
            let effect = self.qsc.configure(node_id, &mut self.fbas);
            proof {
                assert(configured(qsc, node_id, before, self.fbas));
                lemma_count_unsatisfied_prefix(qsc, chain, self.fbas, node_id as nat);
                let longer = chain.push(self.fbas);
                assert(longer[node_id as int] == before);
                assert forall|i: int| 0 <= i < node_id + 1 implies configured(
                    qsc,
                    i as NodeId,
                    #[trigger] longer[i],
                    longer[i + 1],
                ) by {
                    if i < node_id {
                        assert(configured(qsc, i as NodeId, chain[i], chain[i + 1]));
                    }
                }
                chain = longer;
                assert forall|j: int|
                    0 <= j < n && qsc.shaped(first.nodes@[j].quorum_set) implies qsc.shaped(
                    (#[trigger] self.fbas.nodes@[j]).quorum_set,
                ) by {
                    assert(qsc.shaped(before.nodes@[j].quorum_set));
                    if j != node_id {
                        assert(self.fbas.nodes@[j] == before.nodes@[j]);
                    }
                }
                assert forall|i: NodeId|
                    i < node_id + 1 && (forall|j: NodeId| j < i ==> qsc.satisfied(j, first)) && !(
                    #[trigger] qsc.satisfied(i, first)) implies !self.fbas.nodes@[i as int].quorum_set.same_as(
                    first.nodes@[i as int].quorum_set,
                ) by {
                    if i < node_id {
                        assert(self.fbas.nodes@[i as int] == before.nodes@[i as int]);
                    } else {
                        if changes_before > 0 {
                            let j = choose|j: NodeId| j < node_id && !qsc.satisfied(j, first);
                            assert(qsc.satisfied(j, first));
                        }
                    }
                }
            }
            match effect {
                ChangeEffect::Change => {
                    proof {
                        if changes == 0 {
                            assert(!qsc.satisfied(node_id, first));
                        }
                    }
                    self.monitor.register_event(Event::QuorumSetChange(node_id));
                    changes += 1;
                },
                ChangeEffect::NoChange => {},
            }
            node_id += 1;
        }
        proof {
            assert(is_pass(qsc, first, chain, self.fbas));
            if changes > 0 {
                let j = choose|j: NodeId| j < n && !qsc.satisfied(j, first);
                assert(!old(self).is_stable());
            }
        }
        changes
    }

    /// Lets the system grow by `nodes_to_spawn` nodes. Each node joins with a
    /// quorum set that is not configured; then the configurator goes over
    /// all nodes, pass after pass, until a pass changes nothing. Where
    /// `MAX_PASSES` passes in a row changed something, the simulation ends
    /// with an error, the system as it is by then.
    pub fn simulate_growth(&mut self, nodes_to_spawn: usize) -> (r: Result<(), SimulationError>)
        requires
            old(self).fbas.wf(),
        ensures
            final(self).fbas.wf(),
            final(self).configurator() == old(self).configurator(),
            final(self).fbas.nodes@.len() <= old(self).fbas.nodes@.len() + nodes_to_spawn,
            old(self).fbas.keeps_keys(final(self).fbas),
            forall|j: int|
                old(self).fbas.nodes@.len() <= j < final(self).fbas.nodes@.len() ==> (
                #[trigger] final(self).fbas.nodes@[j]).public_key@ == node_name(j as NodeId),
            forall|j: int|
                old(self).fbas.nodes@.len() <= j < final(self).fbas.nodes@.len() ==> old(
                    self
                ).configurator().shaped((#[trigger] final(self).fbas.nodes@[j]).quorum_set),
            forall|j: int|
                0 <= j < old(self).fbas.nodes@.len() && old(self).configurator().shaped(
                    old(self).fbas.nodes@[j].quorum_set,
                ) ==> old(self).configurator().shaped(
                    (#[trigger] final(self).fbas.nodes@[j]).quorum_set,
                ),
            r is Ok ==> final(self).fbas.nodes@.len() == old(self).fbas.nodes@.len()
                + nodes_to_spawn,
            r is Ok && nodes_to_spawn > 0 ==> final(self).is_stable(),
            r is Err ==> old(self).fbas.nodes@.len() < final(self).fbas.nodes@.len(),
            nodes_to_spawn == 0 ==> r is Ok && final(self).fbas == old(self).fbas,
    {
        let mut spawned: usize = 0;
        while spawned < nodes_to_spawn
            invariant
                spawned <= nodes_to_spawn,
                self.fbas.wf(),
                self.configurator() == old(self).configurator(),
                self.fbas.nodes@.len() == old(self).fbas.nodes@.len() + spawned,
                old(self).fbas.keeps_keys(self.fbas),
                forall|j: int|
                    old(self).fbas.nodes@.len() <= j < self.fbas.nodes@.len() ==> (
                    #[trigger] self.fbas.nodes@[j]).public_key@ == node_name(j as NodeId),
                forall|j: int|
                    old(self).fbas.nodes@.len() <= j < self.fbas.nodes@.len() ==> old(
                        self
                    ).configurator().shaped((#[trigger] self.fbas.nodes@[j]).quorum_set),
                forall|j: int|
                    0 <= j < old(self).fbas.nodes@.len() && old(self).configurator().shaped(
                        old(self).fbas.nodes@[j].quorum_set,
                    ) ==> old(self).configurator().shaped(
                        (#[trigger] self.fbas.nodes@[j]).quorum_set,
                    ),
                spawned > 0 ==> self.is_stable(),
                spawned == 0 ==> self.fbas == old(self).fbas,
            decreases nodes_to_spawn - spawned,
        {
            let ghost before = self.fbas;
            let node_id = self.fbas.nodes.len();
            let public_key = generic_node_name(node_id);
            self.fbas.add_node(Node { public_key, quorum_set: QuorumSet::new() });
            proof {
                assert forall|j: int| 0 <= j < self.fbas.nodes@.len() implies (
                #[trigger] self.fbas.nodes@[j]).quorum_set.wf(self.fbas.nodes@.len()) by {
                    if j < before.nodes@.len() {
                        before.nodes@[j].quorum_set.lemma_wf_grows(
                            before.nodes@.len(),
                            self.fbas.nodes@.len(),
                        );
                    }
                }
            }
            proof {
                self.configurator().lemma_unconfigured_shaped(
                    self.fbas.nodes@[node_id as int].quorum_set,
                );
                assert forall|j: int|
                    0 <= j < old(self).fbas.nodes@.len() && old(self).configurator().shaped(
                        old(self).fbas.nodes@[j].quorum_set,
                    ) implies old(self).configurator().shaped(
                    (#[trigger] self.fbas.nodes@[j]).quorum_set,
                ) by {
                    assert(self.fbas.nodes@[j] == before.nodes@[j]);
                }
                assert forall|j: int|
                    old(self).fbas.nodes@.len() <= j < self.fbas.nodes@.len() implies old(
                    self
                ).configurator().shaped((#[trigger] self.fbas.nodes@[j]).quorum_set) by {
                    if j < before.nodes@.len() {
                        assert(self.fbas.nodes@[j] == before.nodes@[j]);
                    }
                }
            }
            self.monitor.register_event(Event::AddNode(node_id));
            let mut passes: usize = 0;
            loop
                invariant
                    passes < MAX_PASSES,
                    self.fbas.wf(),
                    self.configurator() == old(self).configurator(),
                    self.fbas.nodes@.len() == old(self).fbas.nodes@.len() + spawned + 1,
                    spawned < nodes_to_spawn,
                    old(self).fbas.keeps_keys(self.fbas),
                    forall|j: int|
                        old(self).fbas.nodes@.len() <= j < self.fbas.nodes@.len() ==> (
                        #[trigger] self.fbas.nodes@[j]).public_key@ == node_name(j as NodeId),
                    forall|j: int|
                        old(self).fbas.nodes@.len() <= j < self.fbas.nodes@.len() ==> old(
                            self
                        ).configurator().shaped((#[trigger] self.fbas.nodes@[j]).quorum_set),
                    forall|j: int|
                        0 <= j < old(self).fbas.nodes@.len() && old(self).configurator().shaped(
                            old(self).fbas.nodes@[j].quorum_set,
                        ) ==> old(self).configurator().shaped(
                            (#[trigger] self.fbas.nodes@[j]).quorum_set,
                        ),
                ensures
                    self.is_stable(),
                decreases MAX_PASSES - passes,
            {
                let ghost earlier = self.fbas;
                let changes = self.reevaluate_all();
                proof {
                    assert forall|j: int|
                        0 <= j < old(self).fbas.nodes@.len() && old(self).configurator().shaped(
                            old(self).fbas.nodes@[j].quorum_set,
                        ) implies old(self).configurator().shaped(
                        (#[trigger] self.fbas.nodes@[j]).quorum_set,
                    ) by {
                        assert(old(self).configurator().shaped(earlier.nodes@[j].quorum_set));
                    }
                    assert forall|j: int|
                        old(self).fbas.nodes@.len() <= j < self.fbas.nodes@.len() implies old(
                        self
                    ).configurator().shaped((#[trigger] self.fbas.nodes@[j]).quorum_set) by {
                        assert(old(self).configurator().shaped(earlier.nodes@[j].quorum_set));
                    }
                }
                match after_pass(changes, passes) {
                    NextStep::Settle => {
                        break ;
                    },
                    NextStep::GiveUp => {
                        return Err(SimulationError::Nonconvergence);
                    },
                    NextStep::Repeat => {
                        passes += 1;
                    },
                }
            }
            spawned += 1;
        }
        Ok(())
    }
}

} // verus!
