//! The data model: node identifiers, quorum sets, nodes, and the system of
//! nodes as a whole.

use crate::node_set::{members, set_insert, set_with_capacity};
use vstd::prelude::*;

verus! {

/// A node's position in the node list of its system.
pub type NodeId = usize;

/// A node's public key; never interpreted here.
pub type PublicKey = String;

/// A threshold over validators and nested quorum sets: the rule by which a
/// node decides which groups of nodes it trusts together.
#[derive(Debug, PartialEq, Eq)]
pub struct QuorumSet {
    pub threshold: usize,
    pub validators: Vec<NodeId>,
    pub inner_quorum_sets: Vec<QuorumSet>,
}

/// A participant: its key and its quorum set.
#[derive(Clone, Debug, PartialEq, Eq)]
pub struct Node {
    pub public_key: PublicKey,
    pub quorum_set: QuorumSet,
}

/// A federated Byzantine agreement system: its nodes, each identified by its
/// position.
#[derive(Clone, Debug, PartialEq, Eq)]
pub struct Fbas {
    pub nodes: Vec<Node>,
}

/// How many entries of `validators` lie in `s`.
pub open spec fn count_present(validators: Seq<NodeId>, s: Set<NodeId>) -> nat
    decreases validators.len(),
{
    if validators.len() == 0 {
        0
    } else {
        count_present(validators.drop_last(), s) + if s.contains(validators.last()) {
            1nat
        } else {
            0nat
        }
    }
}

/// How many of the quorum sets `inner` are satisfied by `s`.
pub open spec fn count_satisfied(inner: Seq<QuorumSet>, s: Set<NodeId>) -> nat
    decreases inner, 0nat,
{
    if inner.len() == 0 {
        0
    } else {
        count_satisfied(inner.drop_last(), s) + if inner.last().satisfied_by(s) {
            1nat
        } else {
            0nat
        }
    }
}

impl QuorumSet {
    /// The distinguished value that stands for "not configured": threshold
    /// zero and no members at all.
    pub open spec fn is_unconfigured(self) -> bool {
        &&& self.threshold == 0
        &&& self.validators@.len() == 0
        &&& self.inner_quorum_sets@.len() == 0
    }

    /// How many members of this quorum set, validators and nested quorum
    /// sets together, agree with the node set `s`.
    pub open spec fn matches(self, s: Set<NodeId>) -> nat
        decreases self, 1nat,
    {
        count_present(self.validators@, s) + count_satisfied(self.inner_quorum_sets@, s)
    }

    /// Whether the node set `s` satisfies this quorum set: at least
    /// `threshold` of its members agree with `s`. A quorum set that is not
    /// configured is satisfied by no node set but the empty one.
    pub open spec fn satisfied_by(self, s: Set<NodeId>) -> bool
        decreases self, 2nat,
    {
        self.matches(s) >= self.threshold && (s.is_empty() || !self.is_unconfigured())
    }

    /// Whether this quorum set, or one nested in it at any depth, is not
    /// configured.
    pub open spec fn has_unconfigured(self) -> bool
        decreases self,
    {
        self.is_unconfigured() || exists|i: int|
            0 <= i < self.inner_quorum_sets@.len() && (
            #[trigger] self.inner_quorum_sets@[i]).has_unconfigured()
    }

    /// Structural equality: the same threshold, the same validators in the
    /// same order, and nested quorum sets that are pairwise the same.
    pub open spec fn same_as(self, other: QuorumSet) -> bool
        decreases self,
    {
        &&& self.threshold == other.threshold
        &&& self.validators@ == other.validators@
        &&& self.inner_quorum_sets@.len() == other.inner_quorum_sets@.len()
        &&& forall|i: int|
            0 <= i < self.inner_quorum_sets@.len() ==> (#[trigger] self.inner_quorum_sets@[i]).same_as(
                other.inner_quorum_sets@[i],
            )
    }

    /// Whether this quorum set is valid in a system of `n` nodes: its
    /// threshold does not exceed the number of its members, no validator
    /// stands in it twice, every validator is a node of the system, and its
    /// nested quorum sets are valid too.
    pub open spec fn wf(self, n: nat) -> bool
        decreases self,
    {
        &&& self.threshold <= self.validators@.len() + self.inner_quorum_sets@.len()
        &&& self.validators@.no_duplicates()
        &&& forall|i: int| 0 <= i < self.validators@.len() ==> #[trigger] self.validators@[i] < n
        &&& forall|i: int|
            0 <= i < self.inner_quorum_sets@.len() ==> (#[trigger] self.inner_quorum_sets@[i]).wf(n)
    }

    /// A quorum set that is valid in a system stays valid when the system
    /// grows.
    pub proof fn lemma_wf_grows(self, n: nat, m: nat)
        requires
            self.wf(n),
            n <= m,
        ensures
            self.wf(m),
        decreases self,
    {
        assert forall|i: int| 0 <= i < self.inner_quorum_sets@.len() implies (
        #[trigger] self.inner_quorum_sets@[i]).wf(m) by {
            self.inner_quorum_sets@[i].lemma_wf_grows(n, m);
        }
    }

    /// The quorum set of a node that is not configured yet.
    pub fn new() -> (r: Self)
        ensures
            r.is_unconfigured(),
    {
        QuorumSet { threshold: 0, validators: Vec::new(), inner_quorum_sets: Vec::new() }
    }

    /// Whether this quorum set is valid in a system of `n` nodes.
    pub fn is_valid(&self, n: usize) -> (r: bool)
        ensures
            r == self.wf(n as nat),
        decreases self,
    {
        let members_count = self.validators.len();
        if self.threshold > members_count && self.threshold - members_count
            > self.inner_quorum_sets.len() {
            return false;
        }
        let mut seen = set_with_capacity(n);
        let mut i: usize = 0;
        while i < self.validators.len()
            invariant
                i <= self.validators@.len(),
                forall|j: int| 0 <= j < i ==> #[trigger] self.validators@[j] < n,
                forall|j: int, k: int| 0 <= j < k < i ==> self.validators@[j] != self.validators@[k],
                forall|x: NodeId|
                    members(seen).contains(x) <==> exists|j: int|
                        0 <= j < i && self.validators@[j] == x,
            decreases self.validators@.len() - i,
        {
            let v = self.validators[i];
            if v >= n {
                return false;
            }
            let ghost before = members(seen);
            if !set_insert(&mut seen, v) {
                proof {
                    let j = choose|j: int| 0 <= j < i && self.validators@[j] == v;
                    assert(self.validators@[j] == self.validators@[i as int]);
                }
                return false;
            }
            proof {
                assert forall|x: NodeId| members(seen).contains(x) <==> exists|j: int|
                    0 <= j < i + 1 && self.validators@[j] == x by {
                    if before.contains(x) {
                        let j = choose|j: int| 0 <= j < i && self.validators@[j] == x;
                        assert(0 <= j < i + 1 && self.validators@[j] == x);
                    }
                    if exists|j: int| 0 <= j < i + 1 && self.validators@[j] == x {
                        let j = choose|j: int| 0 <= j < i + 1 && self.validators@[j] == x;
                        if j < i {
                            assert(before.contains(x));
                        }
                    }
                }
                assert forall|j: int, k: int| 0 <= j < k < i + 1 implies self.validators@[j]
                    != self.validators@[k] by {
                    if k == i && self.validators@[j] == v {
                        assert(before.contains(v));
                    }
                }
            }
            i += 1;
        }
        let mut k: usize = 0;
        while k < self.inner_quorum_sets.len()
            invariant
                k <= self.inner_quorum_sets@.len(),
                forall|j: int| 0 <= j < k ==> (#[trigger] self.inner_quorum_sets@[j]).wf(n as nat),
            decreases self.inner_quorum_sets@.len() - k,
        {
            if !self.inner_quorum_sets[k].is_valid(n) {
                return false;
            }
            k += 1;
        }
        true
    }

    /// Whether this is the quorum set of a node that is not configured.
    pub fn is_empty(&self) -> (r: bool)
        ensures
            r == self.is_unconfigured(),
    {
        self.threshold == 0 && self.validators.len() == 0 && self.inner_quorum_sets.len() == 0
    }
}

impl Clone for QuorumSet {
    fn clone(&self) -> (r: Self)
        ensures
            self.same_as(r),
        decreases self,
    {
        let mut inner: Vec<QuorumSet> = Vec::new();
        let mut i: usize = 0;
        while i < self.inner_quorum_sets.len()
            invariant
                i <= self.inner_quorum_sets@.len(),
                inner@.len() == i,
                forall|j: int|
                    0 <= j < i ==> (#[trigger] self.inner_quorum_sets@[j]).same_as(inner@[j]),
            decreases self.inner_quorum_sets@.len() - i,
        {
            inner.push(self.inner_quorum_sets[i].clone());
            i += 1;
        }
        QuorumSet {
            threshold: self.threshold,
            validators: self.validators.clone(),
            inner_quorum_sets: inner,
        }
    }
}

impl Fbas {
    /// Whether the node set `s` is a quorum of this system: it is not empty
    /// and each of its members is a witness for it.
    pub open spec fn forms_quorum(self, s: Set<NodeId>) -> bool {
        &&& !s.is_empty()
        &&& forall|x: NodeId| s.contains(x) ==> self.is_witness(x, s)
    }

    /// Whether `x` is a node of this system whose quorum set is satisfied by
    /// `s`.
    pub open spec fn is_witness(self, x: NodeId, s: Set<NodeId>) -> bool {
        x < self.nodes@.len() && self.nodes@[x as int].quorum_set.satisfied_by(s)
    }

    /// Whether `s` is a quorum none of whose proper subsets is a quorum.
    pub open spec fn is_minimal_quorum(self, s: Set<NodeId>) -> bool {
        &&& self.forms_quorum(s)
        &&& forall|t: Set<NodeId>| t.subset_of(s) && #[trigger] self.forms_quorum(t) ==> t =~= s
    }

    /// Whether any two minimal quorums of this system have a node in common.
    pub open spec fn minimal_quorums_intersect(self) -> bool {
        forall|a: Set<NodeId>, b: Set<NodeId>|
            #![trigger self.is_minimal_quorum(a), self.is_minimal_quorum(b)]
            self.is_minimal_quorum(a) && self.is_minimal_quorum(b) ==> !a.disjoint(b)
    }

    /// Whether any two quorums of this system have a node in common.
    pub open spec fn quorums_intersect(self) -> bool {
        forall|a: Set<NodeId>, b: Set<NodeId>|
            #![trigger self.forms_quorum(a), self.forms_quorum(b)]
            self.forms_quorum(a) && self.forms_quorum(b) ==> !a.disjoint(b)
    }

    /// Whether the quorum set of every node is valid in this system.
    pub open spec fn wf(self) -> bool {
        forall|i: int|
            0 <= i < self.nodes@.len() ==> (#[trigger] self.nodes@[i]).quorum_set.wf(
                self.nodes@.len(),
            )
    }

    /// Whether `after` is this system but for the quorum set of node
    /// `node_id`.
    pub open spec fn differs_only_at(self, node_id: NodeId, after: Fbas) -> bool {
        &&& after.nodes@.len() == self.nodes@.len()
        &&& forall|j: int|
            0 <= j < self.nodes@.len() && j != node_id ==> after.nodes@[j] == self.nodes@[j]
        &&& node_id < self.nodes@.len() ==> after.nodes@[node_id as int].public_key
            == self.nodes@[node_id as int].public_key
    }

    /// Whether the nodes of this system are nodes of `after` too, each with
    /// the identifier and the public key that it has here.
    pub open spec fn keeps_keys(self, after: Fbas) -> bool {
        &&& self.nodes@.len() <= after.nodes@.len()
        &&& forall|j: int|
            0 <= j < self.nodes@.len() ==> (#[trigger] after.nodes@[j]).public_key
                == self.nodes@[j].public_key
    }

    /// A system without nodes.
    pub fn new() -> (r: Self)
        ensures
            r.nodes@.len() == 0,
            r.wf(),
    {
        Fbas { nodes: Vec::new() }
    }

    /// Whether the quorum set of every node is valid in this system.
    pub fn is_valid(&self) -> (r: bool)
        ensures
            r == self.wf(),
    {
        let n = self.nodes.len();
        let mut i: usize = 0;
        while i < n
            invariant
                n == self.nodes@.len(),
                i <= n,
                forall|j: int| 0 <= j < i ==> (#[trigger] self.nodes@[j]).quorum_set.wf(n as nat),
            decreases n - i,
        {
            if !self.nodes[i].quorum_set.is_valid(n) {
                return false;
            }
            i += 1;
        }
        true
    }

    /// Appends `node`, which gets the next free identifier.
    pub fn add_node(&mut self, node: Node) -> (id: NodeId)
        ensures
            id == old(self).nodes@.len(),
            final(self).nodes@ == old(self).nodes@.push(node),
    {
        let id = self.nodes.len();
        self.nodes.push(node);
        id
    }
}

/// A prefix of the validators holds no more matches than the whole list.
pub proof fn lemma_count_present_prefix(validators: Seq<NodeId>, s: Set<NodeId>, i: int)
    requires
        0 <= i <= validators.len(),
    ensures
        count_present(validators.take(i), s) <= count_present(validators, s),
    decreases validators.len(),
{
    if i < validators.len() {
        assert(validators.drop_last().take(i) == validators.take(i));
        lemma_count_present_prefix(validators.drop_last(), s, i);
    } else {
        assert(validators.take(i) == validators);
    }
}

/// A prefix of the nested quorum sets holds no more satisfied ones than the
/// whole list.
pub proof fn lemma_count_satisfied_prefix(inner: Seq<QuorumSet>, s: Set<NodeId>, i: int)
    requires
        0 <= i <= inner.len(),
    ensures
        count_satisfied(inner.take(i), s) <= count_satisfied(inner, s),
    decreases inner.len(),
{
    if i < inner.len() {
        assert(inner.drop_last().take(i) == inner.take(i));
        lemma_count_satisfied_prefix(inner.drop_last(), s, i);
    } else {
        assert(inner.take(i) == inner);
    }
}

/// Validators that all lie in a node set are all counted.
pub proof fn lemma_count_present_all(validators: Seq<NodeId>, s: Set<NodeId>)
    requires
        forall|i: int| 0 <= i < validators.len() ==> s.contains(#[trigger] validators[i]),
    ensures
        count_present(validators, s) == validators.len(),
    decreases validators.len(),
{
    if validators.len() > 0 {
        assert forall|i: int| 0 <= i < validators.drop_last().len() implies s.contains(
            #[trigger] validators.drop_last()[i],
        ) by {
            assert(s.contains(validators[i]));
        }
        lemma_count_present_all(validators.drop_last(), s);
        assert(s.contains(validators[validators.len() - 1]));
    }
}

/// A validator that is not in the list does not count: with or without it,
/// a node set holds as many of the validators.
pub proof fn lemma_count_present_remove(validators: Seq<NodeId>, s: Set<NodeId>, x: NodeId)
    requires
        !validators.contains(x),
    ensures
        count_present(validators, s.remove(x)) == count_present(validators, s),
    decreases validators.len(),
{
    if validators.len() > 0 {
        assert forall|i: int| 0 <= i < validators.drop_last().len() implies validators.drop_last()[i]
            != x by {
            assert(validators.contains(validators[i]));
        }
        lemma_count_present_remove(validators.drop_last(), s, x);
        assert(validators.contains(validators[validators.len() - 1]));
    }
}

/// A finite node set holds no more of the validators than it has members,
/// where no validator stands in the list twice.
pub proof fn lemma_count_present_bounded(validators: Seq<NodeId>, s: Set<NodeId>)
    requires
        validators.no_duplicates(),
        s.finite(),
    ensures
        count_present(validators, s) <= s.len(),
    decreases validators.len(),
{
    if validators.len() > 0 {
        let fewer = validators.drop_last();
        let x = validators.last();
        assert(validators[validators.len() - 1] == x);
        assert(!fewer.contains(x)) by {
            if fewer.contains(x) {
                let i = choose|i: int| 0 <= i < fewer.len() && fewer[i] == x;
                assert(validators[i] == validators[validators.len() - 1]);
            }
        }
        if s.contains(x) {
            lemma_count_present_remove(fewer, s, x);
            lemma_count_present_bounded(fewer, s.remove(x));
        } else {
            lemma_count_present_bounded(fewer, s);
        }
    }
}

/// A larger node set holds no fewer of the validators.
pub proof fn lemma_count_present_monotone(validators: Seq<NodeId>, s: Set<NodeId>, t: Set<NodeId>)
    requires
        s.subset_of(t),
    ensures
        count_present(validators, s) <= count_present(validators, t),
    decreases validators.len(),
{
    if validators.len() > 0 {
        lemma_count_present_monotone(validators.drop_last(), s, t);
    }
}

/// A larger node set satisfies no fewer of the quorum sets `inner`, unless
/// the smaller one is empty and one of them holds a quorum set that is not
/// configured.
pub proof fn lemma_count_satisfied_monotone(inner: Seq<QuorumSet>, s: Set<NodeId>, t: Set<NodeId>)
    requires
        s.subset_of(t),
        !s.is_empty() || forall|i: int| 0 <= i < inner.len() ==> !(#[trigger] inner[i]).has_unconfigured(),
    ensures
        count_satisfied(inner, s) <= count_satisfied(inner, t),
    decreases inner, 0nat,
{
    if inner.len() > 0 {
        assert forall|i: int| 0 <= i < inner.drop_last().len() && s.is_empty() implies !(
        #[trigger] inner.drop_last()[i]).has_unconfigured() by {
            assert(!inner[i].has_unconfigured());
        }
        lemma_count_satisfied_monotone(inner.drop_last(), s, t);
        if s.is_empty() {
            assert(!inner[inner.len() - 1].has_unconfigured());
        }
        inner.last().lemma_satisfaction_monotone(s, t);
    }
}

impl QuorumSet {
    /// Satisfaction is monotone: a quorum set that a node set satisfies is
    /// satisfied by every node set that includes it. Left out is the empty
    /// node set where the quorum set, or one nested in it, is not configured:
    /// such a quorum set is satisfied by the empty node set alone.
    pub proof fn lemma_satisfaction_monotone(self, s: Set<NodeId>, t: Set<NodeId>)
        requires
            s.subset_of(t),
            !s.is_empty() || !self.has_unconfigured(),
        ensures
            self.matches(s) <= self.matches(t),
            self.satisfied_by(s) ==> self.satisfied_by(t),
        decreases self, 1nat,
    {
        lemma_count_present_monotone(self.validators@, s, t);
        if s.is_empty() {
            assert forall|i: int| 0 <= i < self.inner_quorum_sets@.len() implies !(
            #[trigger] self.inner_quorum_sets@[i]).has_unconfigured() by {}
        } else {
            let x = choose|x: NodeId| s.contains(x);
            assert(t.contains(x));
        }
        lemma_count_satisfied_monotone(self.inner_quorum_sets@, s, t);
    }
}

} // verus!
