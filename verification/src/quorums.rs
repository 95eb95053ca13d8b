//! The quorum predicate, the enumeration of minimal quorums, and quorum
//! intersection.

use crate::enumeration::{
    all_intersect, lemma_intersection_on_minimal_quorums, lemma_minimal_quorums_complete,
    lemma_minimal_quorums_incomparable, lemma_node_count_bounded, lemma_selection_of_search,
    lemma_walk_done, lemma_walk_drop, lemma_walk_keep, lemma_walk_next_size, lemma_walk_skip,
    lists_minimal_quorums, search, selects_minimal, set_views, walk_inv,
};
use crate::fbas::{
    count_present, count_satisfied, lemma_count_present_prefix, lemma_count_satisfied_prefix,
    Fbas, Node, NodeId, QuorumSet,
};
use crate::node_set::{
    members, set_clone, set_contains, set_insert, set_is_disjoint, set_is_empty, set_is_subset,
    set_len, set_remove, set_to_vec, set_with_capacity,
};
use bit_set::BitSet;
use vstd::prelude::*;

verus! {

impl QuorumSet {
    /// Whether `node_set` satisfies this quorum set. Stops counting as soon
    /// as the threshold is reached. A quorum set that is not configured is
    /// satisfied by the empty node set alone.
    pub fn is_quorum(&self, node_set: &BitSet) -> (r: bool)
        ensures
            r == self.satisfied_by(members(*node_set)),
        decreases self,
    {
        let ghost s = members(*node_set);
        if self.threshold == 0 {
            if self.validators.len() == 0 && self.inner_quorum_sets.len() == 0 {
                return set_is_empty(node_set);
            }
            return true;
        }
        let mut found: usize = 0;
        let mut i: usize = 0;
        while i < self.validators.len()
            invariant
                i <= self.validators@.len(),
                found == count_present(self.validators@.take(i as int), s),
                found < self.threshold,
                found <= i,
                s == members(*node_set),
            decreases self.validators@.len() - i,
        {
            proof {
                assert(self.validators@.take(i + 1).drop_last() == self.validators@.take(i as int));
            }
            if set_contains(node_set, self.validators[i]) {
                found += 1;
                if found == self.threshold {
                    proof {
                        lemma_count_present_prefix(self.validators@, s, i + 1);
                    }
                    return true;
                }
            }
            i += 1;
        }
        proof {
            assert(self.validators@.take(i as int) == self.validators@);
        }
        let ghost present = found;
        let mut k: usize = 0;
        while k < self.inner_quorum_sets.len()
            invariant
                k <= self.inner_quorum_sets@.len(),
                present == count_present(self.validators@, s),
                found == present + count_satisfied(self.inner_quorum_sets@.take(k as int), s),
                found < self.threshold,
                s == members(*node_set),
            decreases self.inner_quorum_sets@.len() - k,
        {
            proof {
                assert(self.inner_quorum_sets@.take(k + 1).drop_last()
                    == self.inner_quorum_sets@.take(k as int));
            }
            if self.inner_quorum_sets[k].is_quorum(node_set) {
                found += 1;
                if found == self.threshold {
                    proof {
                        lemma_count_satisfied_prefix(self.inner_quorum_sets@, s, k + 1);
                    }
                    return true;
                }
            }
            k += 1;
        }
        proof {
            assert(self.inner_quorum_sets@.take(k as int) == self.inner_quorum_sets@);
        }
        false
    }
}

impl Fbas {
    /// Whether `node_set` is a quorum of this system. The empty set never is.
    pub fn is_quorum(&self, node_set: &BitSet) -> (r: bool)
        ensures
            r == self.forms_quorum(members(*node_set)),
            members(*node_set).is_empty() ==> !r,
    {
        if set_is_empty(node_set) {
            return false;
        }
        let ghost s = members(*node_set);
        let ids = set_to_vec(node_set);
        let mut i: usize = 0;
        while i < ids.len()
            invariant
                i <= ids@.len(),
                s == members(*node_set),
                forall|x: usize| ids@.contains(x) <==> s.contains(x),
                forall|j: int| 0 <= j < i ==> self.is_witness(#[trigger] ids@[j], s),
            decreases ids@.len() - i,
        {
            let x = ids[i];
            assert(ids@.contains(x) && s.contains(x));
            if x >= self.nodes.len() {
                assert(!self.is_witness(x, s));
                return false;
            }
            if !self.nodes[x].is_quorum(node_set) {
                assert(!self.is_witness(x, s));
                return false;
            }
            i += 1;
        }
        proof {
            assert forall|x: NodeId| s.contains(x) implies self.is_witness(x, s) by {
                assert(ids@.contains(x));
                let j = choose|j: int| 0 <= j < ids@.len() && ids@[j] == x;
                assert(self.is_witness(ids@[j], s));
            }
        }
        true
    }
}

impl Node {
    /// Whether `node_set` satisfies this node's quorum set.
    pub fn is_quorum(&self, node_set: &BitSet) -> (r: bool)
        ensures
            r == self.quorum_set.satisfied_by(members(*node_set)),
    {
        self.quorum_set.is_quorum(node_set)
    }
}

/// One state of the depth-first search: `unprocessed` holds the undecided
/// nodes, the least on top, and `selection` those taken among the decided
/// ones. Both are as before when the call returns.
fn get_minimal_quorums_step(
    unprocessed: &mut Vec<NodeId>,
    selection: &mut BitSet,
    fbas: &Fbas,
) -> (r: Vec<BitSet>)
    requires
        old(unprocessed)@.len() <= fbas.nodes@.len(),
        forall|i: int|
            0 <= i < old(unprocessed)@.len() ==> old(unprocessed)@[i] == fbas.nodes@.len() - 1 - i,
        forall|x: NodeId|
            members(*old(selection)).contains(x) ==> x < fbas.nodes@.len() - old(unprocessed)@.len(),
    ensures
        final(unprocessed)@ == old(unprocessed)@,
        members(*final(selection)) == members(*old(selection)),
        set_views(r@) == search(
            *fbas,
            (fbas.nodes@.len() - old(unprocessed)@.len()) as nat,
            members(*old(selection)),
        ),
    decreases old(unprocessed)@.len(),
{
    let ghost sel = members(*selection);
    let ghost k = (fbas.nodes@.len() - unprocessed@.len()) as nat;
    let mut result: Vec<BitSet> = Vec::new();
    if fbas.is_quorum(selection) {
        result.push(set_clone(selection));
        assert(set_views(result@) =~= seq![sel]);
    } else {
        match unprocessed.pop() {
            Some(current_candidate) => {
                proof {
                    lemma_node_count_bounded(*fbas);
                }
                assert(current_candidate == k);
                set_insert(selection, current_candidate);
                let mut with = get_minimal_quorums_step(unprocessed, selection, fbas);
                set_remove(selection, current_candidate);
                assert(members(*selection) =~= sel);
                let mut without = get_minimal_quorums_step(unprocessed, selection, fbas);
                unprocessed.push(current_candidate);
                assert(unprocessed@ =~= old(unprocessed)@);
                let ghost with_views = set_views(with@);
                let ghost without_views = set_views(without@);
                result.append(&mut with);
                result.append(&mut without);
                assert(set_views(result@) =~= with_views + without_views);
            },
            None => {
                assert(set_views(result@) =~= Seq::<Set<NodeId>>::empty());
            },
        }
    }
    result
}

/// Whether one of `sets` is a subset of `x`.
fn has_subset_in(sets: &Vec<BitSet>, x: &BitSet) -> (r: bool)
    ensures
        r == exists|i: int| 0 <= i < sets@.len() && members(#[trigger] sets@[i]).subset_of(members(*x)),
{
    let mut i: usize = 0;
    while i < sets.len()
        invariant
            i <= sets@.len(),
            forall|j: int| 0 <= j < i ==> !members(#[trigger] sets@[j]).subset_of(members(*x)),
        decreases sets@.len() - i,
    {
        if set_is_subset(&sets[i], x) {
            return true;
        }
        i += 1;
    }
    false
}

/// Keeps of `node_sets` those of which no subset comes before them once the
/// list is sorted by size, sets of equal size in their given order; what is
/// kept comes out in that sorted order.
pub fn remove_non_minimal_node_sets(node_sets: Vec<BitSet>) -> (r: Vec<BitSet>)
    ensures
        exists|src: Seq<int>| selects_minimal(set_views(node_sets@), src, set_views(r@)),
{
    let ghost sets = set_views(node_sets@);
    let n = node_sets.len();
    let mut sizes: Vec<usize> = Vec::new();
    let mut max_size: usize = 0;
    let mut k: usize = 0;
    while k < n
        invariant
            n == node_sets@.len(),
            sets == set_views(node_sets@),
            k <= n,
            sizes@.len() == k,
            forall|j: int| 0 <= j < k ==> #[trigger] sizes@[j] == sets[j].len(),
            forall|j: int| 0 <= j < k ==> #[trigger] sizes@[j] <= max_size,
        decreases n - k,
    {
        let size = set_len(&node_sets[k]);
        if size > max_size {
            max_size = size;
        }
        sizes.push(size);
        k += 1;
    }
    let mut minimal_node_sets: Vec<BitSet> = Vec::new();
    let ghost mut src: Seq<int> = Seq::empty();
    let mut c: usize = 0;
    assert(set_views(minimal_node_sets@) =~= Seq::<Set<NodeId>>::empty());
    loop
        invariant_except_break
            c <= max_size,
            walk_inv(sets, sizes@, src, set_views(minimal_node_sets@), c as int, 0),
        invariant
            n == node_sets@.len(),
            sets == set_views(node_sets@),
            sizes@.len() == n,
            forall|j: int| 0 <= j < n ==> #[trigger] sizes@[j] <= max_size,
        ensures
            walk_inv(sets, sizes@, src, set_views(minimal_node_sets@), max_size + 1, 0),
        decreases max_size - c,
    {
        let mut k: usize = 0;
        while k < n
            invariant
                n == node_sets@.len(),
                sets == set_views(node_sets@),
                sizes@.len() == n,
                k <= n,
                walk_inv(sets, sizes@, src, set_views(minimal_node_sets@), c as int, k as int),
            decreases n - k,
        {
            let ghost kept = set_views(minimal_node_sets@);
            if sizes[k] == c {
                if has_subset_in(&minimal_node_sets, &node_sets[k]) {
                    proof {
                        let i = choose|i: int|
                            0 <= i < minimal_node_sets@.len() && members(
                                #[trigger] minimal_node_sets@[i],
                            ).subset_of(members(node_sets@[k as int]));
                        assert(kept[i].subset_of(sets[k as int]));
                        lemma_walk_drop(sets, sizes@, src, kept, c as int, k as int);
                    }
                } else {
                    proof {
                        assert forall|i: int| 0 <= i < kept.len() implies !(#[trigger] kept[i]).subset_of(
                            sets[k as int],
                        ) by {
                            assert(!members(minimal_node_sets@[i]).subset_of(
                                members(node_sets@[k as int]),
                            ));
                        }
                        lemma_walk_keep(sets, sizes@, src, kept, c as int, k as int);
                        src = src.push(k as int);
                    }
                    minimal_node_sets.push(set_clone(&node_sets[k]));
                    assert(set_views(minimal_node_sets@) =~= kept.push(sets[k as int]));
                }
            } else {
                proof {
                    lemma_walk_skip(sets, sizes@, src, kept, c as int, k as int);
                }
            }
            k += 1;
        }
        proof {
            lemma_walk_next_size(sets, sizes@, src, set_views(minimal_node_sets@), c as int);
        }
        if c == max_size {
            break ;
        }
        c += 1;
    }
    proof {
        lemma_walk_done(sets, sizes@, src, set_views(minimal_node_sets@), max_size + 1);
    }
    minimal_node_sets
}

/// The minimal quorums of `fbas`: the quorums of which no proper subset is a
/// quorum, each once, smaller ones first and those of equal size in
/// lexicographic order. None is a subset of another, and every quorum has
/// one of them as a subset.
///
/// The search visits every selection of nodes that holds no quorum on the
/// way to it, so its time and the length of its intermediate list grow
/// exponentially with the number of nodes. It recurses as deep as there are
/// nodes.
pub fn get_minimal_quorums(fbas: &Fbas) -> (r: Vec<BitSet>)
    ensures
        lists_minimal_quorums(*fbas, set_views(r@)),
        forall|i: int, j: int|
            0 <= i < r@.len() && 0 <= j < r@.len() && i != j ==> !members(#[trigger] r@[i]).subset_of(
                members(#[trigger] r@[j]),
            ),
        forall|q: Set<NodeId>| #[trigger]
            fbas.forms_quorum(q) ==> exists|i: int|
                0 <= i < r@.len() && members(#[trigger] r@[i]).subset_of(q),
{
    let n = fbas.nodes.len();
    let mut unprocessed: Vec<NodeId> = Vec::new();
    let mut i: usize = n;
    while i > 0
        invariant
            n == fbas.nodes@.len(),
            i <= n,
            unprocessed@.len() == n - i,
            forall|j: int| 0 <= j < unprocessed@.len() ==> unprocessed@[j] == n - 1 - j,
        decreases i,
    {
        i -= 1;
        unprocessed.push(i);
    }
    let mut selection = set_with_capacity(n);
    let quorums = get_minimal_quorums_step(&mut unprocessed, &mut selection, fbas);
    let ghost emitted = set_views(quorums@);
    let r = remove_non_minimal_node_sets(quorums);
    proof {
        let list = set_views(r@);
        let src = choose|src: Seq<int>| selects_minimal(emitted, src, list);
        lemma_selection_of_search(*fbas, src, list);
        lemma_minimal_quorums_incomparable(*fbas, list);
        lemma_minimal_quorums_complete(*fbas, list);
        assert forall|i: int, j: int|
            0 <= i < r@.len() && 0 <= j < r@.len() && i != j implies !members(
            #[trigger] r@[i],
        ).subset_of(members(#[trigger] r@[j])) by {
            assert(!list[i].subset_of(list[j]));
        }
        assert forall|q: Set<NodeId>| #[trigger] fbas.forms_quorum(q) implies exists|i: int|
            0 <= i < r@.len() && members(#[trigger] r@[i]).subset_of(q) by {
            let i = choose|i: int| 0 <= i < list.len() && (#[trigger] list[i]).subset_of(q);
            assert(members(r@[i]).subset_of(q));
        }
    }
    r
}

/// Whether any two of `node_sets` at different positions have a member in
/// common.
pub fn all_node_sets_interesect(node_sets: &[BitSet]) -> (r: bool)
    ensures
        r == all_intersect(set_views(node_sets@)),
{
    let ghost sets = set_views(node_sets@);
    let n = node_sets.len();
    let mut i: usize = 0;
    while i < n
        invariant
            n == node_sets@.len(),
            sets == set_views(node_sets@),
            i <= n,
            forall|a: int, b: int|
                0 <= a < b < n && a < i ==> !(#[trigger] sets[a]).disjoint(#[trigger] sets[b]),
        decreases n - i,
    {
        let mut j: usize = i + 1;
        while j < n
            invariant
                n == node_sets@.len(),
                sets == set_views(node_sets@),
                i < n,
                i < j <= n,
                forall|a: int, b: int|
                    0 <= a < b < n && a < i ==> !(#[trigger] sets[a]).disjoint(#[trigger] sets[b]),
                forall|b: int| i < b < j ==> !sets[i as int].disjoint(#[trigger] sets[b]),
            decreases n - j,
        {
            if set_is_disjoint(&node_sets[i], &node_sets[j]) {
                assert(sets[i as int].disjoint(sets[j as int]));
                return false;
            }
            j += 1;
        }
        i += 1;
    }
    true
}

/// Whether any two quorums of `fbas` have a node in common, decided on its
/// minimal quorums.
pub fn has_quorum_intersection(fbas: &Fbas) -> (r: bool)
    ensures
        r == fbas.quorums_intersect(),
        r == fbas.minimal_quorums_intersect(),
{
    let quorums = get_minimal_quorums(fbas);
    let r = all_node_sets_interesect(quorums.as_slice());
    proof {
        lemma_intersection_on_minimal_quorums(*fbas);
        let list = set_views(quorums@);
        if r {
            assert forall|a: Set<NodeId>, b: Set<NodeId>|
                fbas.is_minimal_quorum(a) && fbas.is_minimal_quorum(b) implies !a.disjoint(b) by {
                assert(list.contains(a) && list.contains(b));
                let i = choose|i: int| 0 <= i < list.len() && list[i] == a;
                let j = choose|j: int| 0 <= j < list.len() && list[j] == b;
                if i == j {
                    assert(!a.is_empty());
                    let x = choose|x: NodeId| a.contains(x);
                    assert(a.contains(x) && b.contains(x));
                } else if i < j {
                    assert(!list[i].disjoint(list[j]));
                } else {
                    assert(!list[j].disjoint(list[i]));
                    let x = choose|x: NodeId| list[j].contains(x) && list[i].contains(x);
                    assert(a.contains(x) && b.contains(x));
                }
            }
        } else {
            let (i, j) = choose|i: int, j: int|
                0 <= i < j < list.len() && (#[trigger] list[i]).disjoint(#[trigger] list[j]);
            assert(fbas.is_minimal_quorum(list[i]) && fbas.is_minimal_quorum(list[j]));
        }
    }
    r
}

} // verus!
